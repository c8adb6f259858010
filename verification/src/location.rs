//! Locations in the object store: a source is a bucket with an optional
//! prefix, a destination a bucket with a key. Both are written as
//! `s3://bucket/rest`.

use vstd::prelude::*;
use vstd::string::StrSliceExecFns;
use vstd::string::StringExecFns;

verus! {

/// `pattern` stands in `text` at the place `at`.
pub open spec fn occurs_at(text: Seq<char>, pattern: Seq<char>, at: int) -> bool {
    0 <= at && at + pattern.len() <= text.len() && text.subrange(at, at + pattern.len())
        == pattern
}

/// The first place from `from` on where `pattern` stands in `text`.
pub open spec fn find(text: Seq<char>, pattern: Seq<char>, from: int) -> Option<int>
    decreases text.len() - from,
{
    if from < 0 || pattern.len() == 0 || from + pattern.len() > text.len() {
        None
    } else if occurs_at(text, pattern, from) {
        Some(from)
    } else {
        find(text, pattern, from + 1)
    }
}

/// What stands before and after the first `pattern` in `text`.
pub open spec fn split_once(text: Seq<char>, pattern: Seq<char>) -> Option<(Seq<char>, Seq<char>)> {
    match find(text, pattern, 0) {
        Some(at) => Some(
            (text.subrange(0, at), text.subrange(at + pattern.len(), text.len() as int)),
        ),
        None => None,
    }
}

/// The bucket and the rest of a location: what stands between the scheme
/// separator and the first slash after it, and what stands behind that slash,
/// if there is one. Nothing for a text without a scheme separator, or with
/// another scheme than `s3`.
pub open spec fn parsed_url(url: Seq<char>) -> Option<(Seq<char>, Option<Seq<char>>)> {
    match split_once(url, "://"@) {
        None => None,
        Some((scheme, rest)) => if scheme != "s3"@ {
            None
        } else {
            match split_once(rest, "/"@) {
                None => Some((rest, None)),
                Some((bucket, prefix)) => Some((bucket, Some(prefix))),
            }
        },
    }
}

/// What `find` gives is the first place at which the pattern stands.
pub proof fn lemma_find_is_first(text: Seq<char>, pattern: Seq<char>, from: int)
    requires
        0 <= from,
    ensures
        match find(text, pattern, from) {
            Some(at) => from <= at && occurs_at(text, pattern, at) && forall|i: int|
                from <= i < at ==> !occurs_at(text, pattern, i),
            None => pattern.len() > 0 ==> forall|i: int|
                from <= i ==> !occurs_at(text, pattern, i),
        },
    decreases text.len() - from,
{
    if pattern.len() > 0 && from + pattern.len() <= text.len() && !occurs_at(
        text,
        pattern,
        from,
    ) {
        lemma_find_is_first(text, pattern, from + 1);
    }
}

/// The characters of a text.
fn characters(text: &str) -> (chars: Vec<char>)
    ensures
        chars@ == text@,
{
    broadcast use vstd::string::group_string_axioms;

    let mut chars: Vec<char> = Vec::new();
    for c in it: text.chars()
        invariant
            it.seq() == text@,
            chars@ == text@.take(it.index() as int),
    {
        proof {
            assert(text@.take(it.index() + 1).drop_last() == text@.take(it.index() as int));
        }
        chars.push(c);
    }
    proof {
        assert(text@.take(text@.len() as int) == text@);
    }
    chars
}


/// Whether `pattern` stands in `text` at the place `at`.
fn stands_at(text: &Vec<char>, pattern: &Vec<char>, at: usize) -> (found: bool)
    ensures
        found == occurs_at(text@, pattern@, at as int),
{
    if pattern.len() > text.len() || at > text.len() - pattern.len() {
        return false;
    }
    let mut i: usize = 0;
    while i < pattern.len()
        invariant
            i <= pattern.len(),
            at + pattern.len() <= text.len(),
            text@.subrange(at as int, at + i) == pattern@.take(i as int),
        decreases pattern.len() - i,
    {
        if text[at + i] != pattern[i] {
            proof {
                let slice = text@.subrange(at as int, at + pattern@.len());
                assert(slice[i as int] != pattern@[i as int]);
            }
            return false;
        }
        proof {
            assert(text@.subrange(at as int, at + i + 1) == text@.subrange(
                at as int,
                at + i,
            ).push(text@[at + i]));
            assert(pattern@.take(i + 1) == pattern@.take(i as int).push(pattern@[i as int]));
        }
        i = i + 1;
    }
    proof {
        assert(pattern@.take(pattern@.len() as int) == pattern@);
    }
    true
}

/// The first place where `pattern` stands in `text`.
fn find_first(text: &Vec<char>, pattern: &Vec<char>) -> (place: Option<usize>)
    ensures
        match place {
            Some(at) => find(text@, pattern@, 0) == Some(at as int) && at + pattern@.len()
                <= text@.len(),
            None => find(text@, pattern@, 0) is None,
        },
{
    if pattern.len() == 0 || pattern.len() > text.len() {
        return None;
    }
    let last = text.len() - pattern.len();
    let mut at: usize = 0;
    while at <= last
        invariant
            pattern@.len() > 0,
            last == text@.len() - pattern@.len(),
            last < usize::MAX,
            at <= last + 1,
            find(text@, pattern@, 0) == find(text@, pattern@, at as int),
        decreases last + 1 - at,
    {
        if stands_at(text, pattern, at) {
            return Some(at);
        }
        at = at + 1;
    }
    None
}

/// The texts of a parsed location.
pub open spec fn location_texts(location: Option<(String, Option<String>)>) -> Option<
    (Seq<char>, Option<Seq<char>>),
> {
    match location {
        None => None,
        Some((bucket, None)) => Some((bucket@, None)),
        Some((bucket, Some(rest))) => Some((bucket@, Some(rest@))),
    }
}

/// Parses a location of the form `s3://bucket` or `s3://bucket/rest`: the
/// bucket is what stands between the first `://` and the first slash after
/// it, the rest what stands behind that slash. A text without `://`, or with
/// another scheme than `s3` before it, is no location.
pub fn parse_url(url: &str) -> (location: Option<(String, Option<String>)>)
    ensures
        location_texts(location) == parsed_url(url@),
{
    let text = characters(url);
    let scheme_mark = characters("://");
    let scheme = characters("s3");
    let slash = characters("/");
    let total = text.len();
    let at = match find_first(&text, &scheme_mark) {
        Some(at) => at,
        None => {
            return None;
        },
    };
    if !(at == scheme.len() && stands_at(&text, &scheme, 0)) {
        proof {
            assert(text@.subrange(0, at as int).len() == at);
        }
        return None;
    }
    let rest = url.substring_char(at + scheme_mark.len(), total);
    let rest_text = characters(rest);
    match find_first(&rest_text, &slash) {
        None => Some((String::from_str(rest), None)),
        Some(cut) => {
            let bucket = rest.substring_char(0, cut);
            let prefix = rest.substring_char(cut + slash.len(), rest_text.len());
            Some((String::from_str(bucket), Some(String::from_str(prefix))))
        },
    }
}

/// The name of the archive where the destination has no prefix.
pub open spec fn plain_archive_name() -> Seq<char> {
    "archive.tar.xz"@
}

/// The key of the archive: under a prefix, `archive_`, the cutoff's stamp
/// and `.tar.xz`, behind the prefix and a slash, which is not doubled where
/// the prefix ends in one; without a prefix, the plain name.
pub open spec fn destination_key_text(prefix: Option<Seq<char>>, stamp: Seq<char>) -> Seq<char> {
    match prefix {
        None => plain_archive_name(),
        Some(prefix) => {
            let name = "archive_"@ + stamp + ".tar.xz"@;
            if prefix.len() > 0 && prefix.last() == '/' {
                prefix + name
            } else {
                prefix + "/"@ + name
            }
        },
    }
}

/// The key under which the archive is stored.
pub fn destination_key(prefix: &Option<String>, stamp: &str) -> (key: String)
    ensures
        key@ == destination_key_text(
            match prefix {
                Some(p) => Some(p@),
                None => None,
            },
            stamp@,
        ),
{
    match prefix {
        None => String::from_str("archive.tar.xz"),
        Some(prefix) => {
            proof {
                reveal_strlit("/");
            }
            let length = prefix.as_str().unicode_len();
            let mut key = prefix.clone();
            if !(length > 0 && prefix.as_str().get_char(length - 1) == '/') {
                key.append("/");
            }
            key.append("archive_");
            key.append(stamp);
            key.append(".tar.xz");
            proof {
                let p = prefix@;
                assert(p + ("archive_"@ + stamp@ + ".tar.xz"@) == p + "archive_"@ + stamp@
                    + ".tar.xz"@);
                assert(p + "/"@ + ("archive_"@ + stamp@ + ".tar.xz"@) == p + "/"@ + "archive_"@
                    + stamp@ + ".tar.xz"@);
            }
            key
        },
    }
}

} // verus!
