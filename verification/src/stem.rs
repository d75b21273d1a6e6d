//! Deriving an executable's identifier from its path: the file name
//! without directory and without the final extension, under the platform
//! path rules.
use vstd::prelude::*;
use vstd::string::*;

verus! {

/// The characters of a path after its last separator.
pub open spec fn last_segment(p: Seq<char>) -> Seq<char>
    decreases p.len(),
{
    if p.len() == 0 {
        Seq::empty()
    } else if p.last() == '/' {
        Seq::empty()
    } else {
        last_segment(p.drop_last()).push(p.last())
    }
}

/// The file name a path refers to: its last component, with trailing
/// separators and `.` components ignored. Empty where no component is
/// left or the last one is `..` — such a path names no file.
pub open spec fn file_name_of(p: Seq<char>) -> Seq<char>
    decreases p.len(),
{
    if p.len() == 0 {
        Seq::empty()
    } else if p.last() == '/' {
        file_name_of(p.drop_last())
    } else if last_segment(p) == seq!['.'] {
        file_name_of(p.drop_last())
    } else if last_segment(p) == seq!['.', '.'] {
        Seq::empty()
    } else {
        last_segment(p)
    }
}

/// Whether a name holds a `.` anywhere past its first character; only
/// such a `.` separates an extension.
pub open spec fn has_inner_dot(s: Seq<char>) -> bool {
    exists|i: int| 0 < i < s.len() && s[i] == '.'
}

/// A file name without its extension: the part before the last `.`,
/// unless the only `.` leads the name (a hidden file has no extension).
pub open spec fn stem_of(name: Seq<char>) -> Seq<char>
    decreases name.len(),
{
    if name.len() <= 1 {
        name
    } else if name.last() == '.' {
        name.drop_last()
    } else if has_inner_dot(name.drop_last()) {
        stem_of(name.drop_last())
    } else {
        name
    }
}

/// A path's last segment is its suffix past the last separator.
proof fn lemma_segment_after_separator(p: Seq<char>, k: int)
    requires
        0 <= k < p.len(),
        p[k] == '/',
        forall|j: int| k < j < p.len() ==> p[j] != '/',
    ensures
        last_segment(p) == p.skip(k + 1),
    decreases p.len(),
{
    if k == p.len() - 1 {
        assert(p.last() == '/');
        assert(last_segment(p) =~= p.skip(k + 1));
    } else {
        assert(p.last() != '/');
        lemma_segment_after_separator(p.drop_last(), k);
        assert(last_segment(p) == p.drop_last().skip(k + 1).push(p.last()));
        assert(last_segment(p) =~= p.skip(k + 1));
    }
}

/// A path without separators is one segment.
proof fn lemma_segment_no_separator(p: Seq<char>)
    requires
        forall|j: int| 0 <= j < p.len() ==> p[j] != '/',
    ensures
        last_segment(p) == p,
    decreases p.len(),
{
    if p.len() > 0 {
        lemma_segment_no_separator(p.drop_last());
        assert(last_segment(p) =~= p);
    }
}

/// Within the first `end` characters, the last segment is the component
/// running from `start` to `end`.
proof fn lemma_segment_in_take(p: Seq<char>, start: int, end: int)
    requires
        0 <= start < end <= p.len(),
        forall|j: int| start <= j < end ==> p[j] != '/',
        start > 0 ==> p[start - 1] == '/',
    ensures
        last_segment(p.take(end)) == p.subrange(start, end),
{
    let q = p.take(end);
    assert(forall|j: int| 0 <= j < end ==> q[j] == p[j]);
    if start > 0 {
        lemma_segment_after_separator(q, start - 1);
        assert(q.skip(start) =~= p.subrange(start, end));
    } else {
        lemma_segment_no_separator(q);
        assert(q =~= p.subrange(0, end));
    }
}

/// The stem ends where the last inner `.` stands.
proof fn lemma_stem_before_dot(f: Seq<char>, d: int)
    requires
        0 < d < f.len(),
        f[d] == '.',
        forall|j: int| d < j < f.len() ==> f[j] != '.',
    ensures
        stem_of(f) == f.take(d),
    decreases f.len(),
{
    if d == f.len() - 1 {
        assert(f.last() == '.');
        assert(f.drop_last() =~= f.take(d));
    } else {
        assert(f.last() != '.');
        assert(has_inner_dot(f.drop_last())) by {
            assert(f.drop_last()[d] == '.');
        }
        lemma_stem_before_dot(f.drop_last(), d);
        assert(f.drop_last().take(d) =~= f.take(d));
    }
}

/// A name with no inner `.` is its own stem.
proof fn lemma_stem_no_dot(f: Seq<char>)
    requires
        forall|j: int| 0 < j < f.len() ==> f[j] != '.',
    ensures
        stem_of(f) == f,
    decreases f.len(),
{
    if f.len() > 1 {
        assert(f.last() != '.');
        assert(!has_inner_dot(f.drop_last()));
    }
}

/// Where the segment holding position `end - 1` begins: one past the last
/// separator before `end`, or the string's start.
fn segment_start(path: &str, end: usize) -> (r: usize)
    requires
        1 <= end <= path@.len(),
        path@[end - 1] != '/',
    ensures
        r < end,
        forall|j: int| r <= j < end ==> path@[j] != '/',
        r > 0 ==> path@[r - 1] == '/',
{
    let mut start: usize = end - 1;
    loop
        invariant
            1 <= end <= path@.len(),
            start < end,
            forall|j: int| start <= j < end ==> path@[j] != '/',
        decreases start,
    {
        if start == 0 {
            return start;
        }
        if path.get_char(start - 1) == '/' {
            return start;
        }
        start = start - 1;
    }
}

/// The identifier under which an executable at `path` is indexed: its
/// file name without the extension, or nothing where the path names no
/// file.
pub fn file_stem(path: &str) -> (r: Option<String>)
    ensures
        match r {
            Some(s) => file_name_of(path@).len() > 0 && s@ == stem_of(file_name_of(path@)),
            None => file_name_of(path@).len() == 0,
        },
{
    let n = path.unicode_len();
    let mut end: usize = n;
    proof {
        assert(path@.take(n as int) =~= path@);
    }
    loop
        invariant
            n == path@.len(),
            end <= n,
            file_name_of(path@) == file_name_of(path@.take(end as int)),
        decreases end,
    {
        if end == 0 {
            proof {
                assert(path@.take(0) =~= Seq::<char>::empty());
            }
            return None;
        }
        let c = path.get_char(end - 1);
        if c == '/' {
            proof {
                assert(path@.take(end as int).drop_last() =~= path@.take(end - 1));
            }
            end = end - 1;
        } else {
            let start = segment_start(path, end);
            let seg_len = end - start;
            let c0 = path.get_char(start);
            if seg_len == 1 && c0 == '.' {
                proof {
                    lemma_segment_in_take(path@, start as int, end as int);
                    assert(path@.subrange(start as int, end as int) =~= seq!['.']);
                    assert(path@.take(end as int).drop_last() =~= path@.take(end - 1));
                }
                end = end - 1;
            } else if seg_len == 2 && c0 == '.' && path.get_char(start + 1) == '.' {
                proof {
                    lemma_segment_in_take(path@, start as int, end as int);
                    assert(path@.subrange(start as int, end as int) =~= seq!['.', '.']);
                }
                return None;
            } else {
                proof {
                    lemma_segment_in_take(path@, start as int, end as int);
                    let seg = path@.subrange(start as int, end as int);
                    assert(seg.len() == end - start);
                    if seg == seq!['.'] {
                        assert(seg[0] == '.');
                        assert(false);
                    }
                    if seg == seq!['.', '.'] {
                        assert(seg[0] == '.' && seg[1] == '.');
                        assert(false);
                    }
                    assert(file_name_of(path@) == seg);
                }
                let mut stem_end: usize = end;
                let mut k: usize = start + 1;
                while k < end
                    invariant
                        n == path@.len(),
                        start < end <= n,
                        start + 1 <= k <= end,
                        stem_end == end || (start < stem_end < end && path@[stem_end as int]
                            == '.' && forall|j: int| stem_end < j < k ==> path@[j] != '.'),
                        stem_end == end ==> forall|j: int| start < j < k ==> path@[j] != '.',
                    decreases end - k,
                {
                    if path.get_char(k) == '.' {
                        stem_end = k;
                    }
                    k = k + 1;
                }
                proof {
                    let f = file_name_of(path@);
                    assert(forall|j: int|
                        0 <= j < f.len() ==> #[trigger] f[j] == path@[start + j]);
                    if stem_end == end {
                        lemma_stem_no_dot(f);
                    } else {
                        lemma_stem_before_dot(f, stem_end - start as int);
                        assert(f.take(stem_end - start as int) =~= path@.subrange(
                            start as int,
                            stem_end as int,
                        ));
                    }
                    assert(stem_of(f) == path@.subrange(start as int, stem_end as int));
                }
                let stem = path.substring_char(start, stem_end);
                return Some(String::from_str(stem));
            }
        }
    }
}

} // verus!
