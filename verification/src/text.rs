//! Text search and replacement, as the request handler needs them.
use vstd::prelude::*;
use vstd::string::StrSliceExecFns;
use vstd::string::StringExecFns;

verus! {

/// `needle` stands in `hay` at position `at`.
pub open spec fn occurs_at(hay: Seq<char>, at: int, needle: Seq<char>) -> bool {
    0 <= at && at + needle.len() <= hay.len() && hay.subrange(at, at + needle.len()) == needle
}

/// `text` with every occurrence of `pattern` replaced by `with`. The
/// occurrences are taken from the left and do not overlap; an empty
/// pattern occurs nowhere.
pub open spec fn spec_replace(text: Seq<char>, pattern: Seq<char>, with: Seq<char>) -> Seq<char>
    decreases text.len(),
{
    if pattern.len() == 0 || text.len() < pattern.len() {
        text
    } else if occurs_at(text, 0, pattern) {
        with + spec_replace(text.skip(pattern.len() as int), pattern, with)
    } else {
        seq![text[0]] + spec_replace(text.skip(1), pattern, with)
    }
}

/// `text` without the copies of `prefix` that it starts with.
pub open spec fn spec_trim_start(text: Seq<char>, prefix: Seq<char>) -> Seq<char>
    decreases text.len(),
{
    if prefix.len() > 0 && occurs_at(text, 0, prefix) {
        spec_trim_start(text.skip(prefix.len() as int), prefix)
    } else {
        text
    }
}

/// `text` ends with `suffix`.
pub open spec fn spec_ends_with(text: Seq<char>, suffix: Seq<char>) -> bool {
    occurs_at(text, text.len() - suffix.len(), suffix)
}

/// Where the last segment of `text` begins: behind its last `mark`, or at
/// the start where it holds none.
pub open spec fn spec_last_segment_start(text: Seq<char>, mark: char) -> int
    decreases text.len(),
{
    if text.len() == 0 {
        0
    } else if text.last() == mark {
        text.len() as int
    } else {
        spec_last_segment_start(text.drop_last(), mark)
    }
}

/// What follows the last `mark` in `text`; all of `text` where it holds
/// none.
pub open spec fn spec_last_segment(text: Seq<char>, mark: char) -> Seq<char> {
    text.skip(spec_last_segment_start(text, mark))
}

/// The last segment holds no mark, and `text` is the last segment alone or
/// something that ends in the mark, followed by the last segment.
pub proof fn lemma_last_segment(text: Seq<char>, mark: char)
    ensures
        0 <= spec_last_segment_start(text, mark) <= text.len(),
        !spec_last_segment(text, mark).contains(mark),
        spec_last_segment_start(text, mark) > 0 ==> text[spec_last_segment_start(text, mark) - 1]
            == mark,
        spec_last_segment_start(text, mark) == 0 ==> !text.contains(mark),
    decreases text.len(),
{
    if text.len() > 0 {
        let front = text.drop_last();
        lemma_last_segment(front, mark);
        if text.last() != mark {
            let start = spec_last_segment_start(front, mark);
            assert(spec_last_segment(text, mark) =~= spec_last_segment(front, mark).push(text.last()));
            if spec_last_segment(text, mark).contains(mark) {
                let tail = spec_last_segment(text, mark);
                let i = choose|i: int| 0 <= i < tail.len() && tail[i] == mark;
                assert(spec_last_segment(front, mark)[i] == mark);
            }
            if start == 0 && text.contains(mark) {
                let i = choose|i: int| 0 <= i < text.len() && text[i] == mark;
                assert(front[i] == mark);
            }
        }
    }
}

/// The characters of a string.
pub fn chars_of(text: &str) -> (chars: Vec<char>)
    ensures
        chars@ == text@,
{
    let mut chars: Vec<char> = Vec::new();
    for letter in it: text.chars()
        invariant
            it.seq() == text@,
            chars@ == text@.take(it.index() as int),
    {
        chars.push(letter);
        assert(text@.take(it.index() + 1) =~= text@.take(it.index() as int).push(letter));
    }
    assert(text@.take(text@.len() as int) =~= text@);
    chars
}

/// Whether `needle` stands in `hay` at `at`.
pub fn matches_at(hay: &Vec<char>, at: usize, needle: &Vec<char>) -> (found: bool)
    ensures
        found == occurs_at(hay@, at as int, needle@),
{
    let len = needle.len();
    let room = hay.len();
    if at > room || len > room - at {
        return false;
    }
    let mut i: usize = 0;
    while i < len
        invariant
            len == needle@.len(),
            room == hay@.len(),
            at + len <= room,
            i <= len,
            hay@.subrange(at as int, at + i) == needle@.take(i as int),
        decreases len - i,
    {
        if hay[at + i] != needle[i] {
            proof {
                if occurs_at(hay@, at as int, needle@) {
                    assert(hay@.subrange(at as int, at + len)[i as int] == needle@[i as int]);
                }
            }
            return false;
        }
        assert(hay@.subrange(at as int, at + i + 1) =~= hay@.subrange(at as int, at + i).push(
            hay@[at + i],
        ));
        assert(needle@.take(i + 1) =~= needle@.take(i as int).push(needle@[i as int]));
        i = i + 1;
    }
    assert(needle@.take(len as int) =~= needle@);
    true
}

/// Whether two strings hold the same text.
pub fn same_text(a: &str, b: &str) -> (same: bool)
    ensures
        same == (a@ == b@),
{
    let left = chars_of(a);
    let right = chars_of(b);
    let same = left.len() == right.len() && matches_at(&left, 0, &right);
    proof {
        if left@.len() == right@.len() {
            assert(left@.subrange(0, right@.len() as int) =~= left@);
        }
    }
    same
}

pub fn ends_with(text: &str, suffix: &str) -> (found: bool)
    ensures
        found == spec_ends_with(text@, suffix@),
{
    let hay = chars_of(text);
    let needle = chars_of(suffix);
    if needle.len() > hay.len() {
        return false;
    }
    matches_at(&hay, hay.len() - needle.len(), &needle)
}

/// `text` with every occurrence of `pattern` replaced by `with`.
pub fn replace(text: &str, pattern: &str, with: &str) -> (out: String)
    ensures
        out@ == spec_replace(text@, pattern@, with@),
{
    let hay = chars_of(text);
    let needle = chars_of(pattern);
    let len = hay.len();
    let step = needle.len();
    if step == 0 || len < step {
        return String::from_str(text);
    }
    let mut out = String::new();
    let mut done: usize = 0;
    let mut at: usize = 0;
    proof {
        assert(text@.skip(0) =~= text@);
        assert(out@ + text@.subrange(0, 0) =~= Seq::<char>::empty());
        assert(Seq::<char>::empty() + spec_replace(text@, pattern@, with@) =~= spec_replace(
            text@,
            pattern@,
            with@,
        ));
    }
    while at <= len - step
        invariant
            hay@ == text@,
            needle@ == pattern@,
            len == hay@.len(),
            step == needle@.len(),
            0 < step <= len,
            done <= at <= len,
            spec_replace(text@, pattern@, with@) == out@ + text@.subrange(done as int, at as int)
                + spec_replace(text@.skip(at as int), pattern@, with@),
        decreases len - at,
    {
        let ghost rest = text@.skip(at as int);
        let ghost before = out@;
        proof {
            assert(rest.subrange(0, step as int) =~= text@.subrange(at as int, at + step));
        }
        if matches_at(&hay, at, &needle) {
            out.append(text.substring_char(done, at));
            out.append(with);
            proof {
                assert(rest.skip(step as int) =~= text@.skip(at + step));
                assert(text@.subrange(at + step, at + step) =~= Seq::<char>::empty());
                assert(out@ =~= before + text@.subrange(done as int, at as int) + with@);
                assert(out@ + text@.subrange(at + step, at + step) + spec_replace(
                    text@.skip(at + step),
                    pattern@,
                    with@,
                ) =~= before + text@.subrange(done as int, at as int) + (with@ + spec_replace(
                    rest.skip(step as int),
                    pattern@,
                    with@,
                )));
            }
            at = at + step;
            done = at;
        } else {
            proof {
                assert(rest.skip(1) =~= text@.skip(at + 1));
                assert(text@.subrange(done as int, at + 1) =~= text@.subrange(
                    done as int,
                    at as int,
                ) + seq![rest[0]]);
                assert(out@ + text@.subrange(done as int, at + 1) + spec_replace(
                    text@.skip(at + 1),
                    pattern@,
                    with@,
                ) =~= out@ + text@.subrange(done as int, at as int) + (seq![rest[0]]
                    + spec_replace(rest.skip(1), pattern@, with@)));
            }
            at = at + 1;
        }
    }
    let ghost before = out@;
    out.append(text.substring_char(done, len));
    proof {
        assert(text@.skip(at as int).len() < step);
        assert(spec_replace(text@.skip(at as int), pattern@, with@) == text@.skip(at as int));
        assert(before + text@.subrange(done as int, at as int) + text@.skip(at as int) =~= before
            + text@.subrange(done as int, len as int));
    }
    out
}

/// `text` without the copies of `prefix` that it starts with.
pub fn trim_start_matches<'a>(text: &'a str, prefix: &str) -> (out: &'a str)
    ensures
        out@ == spec_trim_start(text@, prefix@),
{
    let hay = chars_of(text);
    let needle = chars_of(prefix);
    let len = hay.len();
    let step = needle.len();
    let mut at: usize = 0;
    proof {
        assert(text@.skip(0) =~= text@);
    }
    if step > 0 {
        while matches_at(&hay, at, &needle)
            invariant
                hay@ == text@,
                needle@ == prefix@,
                len == hay@.len(),
                step == needle@.len(),
                step > 0,
                at <= len,
                spec_trim_start(text@, prefix@) == spec_trim_start(text@.skip(at as int), prefix@),
            decreases len - at,
        {
            proof {
                let rest = text@.skip(at as int);
                assert(rest.subrange(0, step as int) =~= text@.subrange(at as int, at + step));
                assert(rest.skip(step as int) =~= text@.skip(at + step));
            }
            at = at + step;
        }
        proof {
            let rest = text@.skip(at as int);
            if at + step <= len {
                assert(rest.subrange(0, step as int) =~= text@.subrange(at as int, at + step));
            }
        }
    }
    proof {
        assert(text@.skip(at as int) =~= text@.subrange(at as int, len as int));
        if at == 0 {
            assert(text@.skip(0) =~= text@);
        }
    }
    text.substring_char(at, len)
}

/// What follows the last `mark` in `text`.
pub fn last_segment(text: &str, mark: char) -> (out: Vec<char>)
    ensures
        out@ == spec_last_segment(text@, mark),
{
    let hay = chars_of(text);
    let len = hay.len();
    let mut start: usize = 0;
    let mut at: usize = 0;
    while at < len
        invariant
            hay@ == text@,
            len == hay@.len(),
            at <= len,
            start == spec_last_segment_start(text@.take(at as int), mark),
            start <= at,
        decreases len - at,
    {
        proof {
            let upto = text@.take(at + 1);
            assert(upto.drop_last() =~= text@.take(at as int));
            assert(upto.last() == text@[at as int]);
        }
        if hay[at] == mark {
            start = at + 1;
        }
        at = at + 1;
    }
    proof {
        assert(text@.take(len as int) =~= text@);
    }
    let mut out: Vec<char> = Vec::new();
    let mut i: usize = start;
    while i < len
        invariant
            hay@ == text@,
            len == hay@.len(),
            start <= i <= len,
            out@ == text@.subrange(start as int, i as int),
        decreases len - i,
    {
        out.push(hay[i]);
        assert(text@.subrange(start as int, i + 1) =~= text@.subrange(start as int, i as int).push(
            text@[i as int],
        ));
        i = i + 1;
    }
    proof {
        assert(text@.subrange(start as int, len as int) =~= text@.skip(start as int));
    }
    out
}

} // verus!
