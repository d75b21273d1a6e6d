//! The artifact index: an ordered mapping from executable identifier to
//! file-system path, fed one build-tool message at a time.
use vstd::prelude::*;
use vstd::string::*;
use crate::config::BinTestBuilder;
use crate::message::parse_message_line;
use crate::message::parse_of;
use crate::message::BuildFault;
use crate::message::LineMsg;
use crate::message::MsgView;
use crate::order::lemma_lex_lt_connected;
use crate::order::lemma_lex_lt_irreflexive;
use crate::order::lemma_lex_lt_transitive;
use crate::order::lex_lt;
use crate::order::str_lt;
use crate::stem::file_name_of;
use crate::stem::file_stem;
use crate::stem::stem_of;

verus! {

/// Entry identifiers stand in strictly ascending order, so each occurs
/// exactly once and a walk over the entries is deterministic.
pub open spec fn keys_strictly_sorted(s: Seq<(String, String)>) -> bool {
    forall|i: int, j: int|
        0 <= i < j < s.len() ==> lex_lt((#[trigger] s[i]).0@, (#[trigger] s[j]).0@)
}

/// The mapping that a sequence of entries holds, later entries winning.
pub open spec fn map_of(s: Seq<(String, String)>) -> Map<Seq<char>, Seq<char>>
    decreases s.len(),
{
    if s.len() == 0 {
        Map::empty()
    } else {
        map_of(s.drop_last()).insert(s.last().0@, s.last().1@)
    }
}

proof fn lemma_map_of_contains(s: Seq<(String, String)>, k: Seq<char>)
    ensures
        map_of(s).contains_key(k) <==> exists|i: int| 0 <= i < s.len() && (#[trigger] s[i]).0@ == k,
    decreases s.len(),
{
    if s.len() > 0 {
        lemma_map_of_contains(s.drop_last(), k);
        assert(forall|p: int| 0 <= p < s.len() - 1 ==> #[trigger] s.drop_last()[p] == s[p]);
        if map_of(s).contains_key(k) {
            if s.last().0@ == k {
                assert((s[s.len() - 1]).0@ == k);
            } else {
                let i = choose|i: int|
                    0 <= i < s.drop_last().len() && (#[trigger] s.drop_last()[i]).0@ == k;
                assert((s[i]).0@ == k);
            }
        }
        if exists|i: int| 0 <= i < s.len() && (#[trigger] s[i]).0@ == k {
            let i = choose|i: int| 0 <= i < s.len() && (#[trigger] s[i]).0@ == k;
            if i < s.len() - 1 {
                assert((s.drop_last()[i]).0@ == k);
            }
        }
    }
}

proof fn lemma_map_of_value(s: Seq<(String, String)>, i: int)
    requires
        0 <= i < s.len(),
        forall|p: int, q: int|
            0 <= p < q < s.len() ==> (#[trigger] s[p]).0@ != (#[trigger] s[q]).0@,
    ensures
        map_of(s).contains_key((s[i]).0@),
        map_of(s)[(s[i]).0@] == (s[i]).1@,
    decreases s.len(),
{
    assert(forall|p: int| 0 <= p < s.len() - 1 ==> #[trigger] s.drop_last()[p] == s[p]);
    if i < s.len() - 1 {
        assert((s[i]).0@ != s.last().0@);
        lemma_map_of_value(s.drop_last(), i);
    }
}

proof fn lemma_sorted_keys_distinct(s: Seq<(String, String)>)
    requires
        keys_strictly_sorted(s),
    ensures
        forall|p: int, q: int|
            0 <= p < q < s.len() ==> (#[trigger] s[p]).0@ != (#[trigger] s[q]).0@,
{
    assert forall|p: int, q: int|
        0 <= p < q < s.len() implies (#[trigger] s[p]).0@ != (#[trigger] s[q]).0@ by {
        if (s[p]).0@ == (s[q]).0@ {
            lemma_lex_lt_irreflexive((s[p]).0@);
        }
    }
}

/// Replacing the entry that already holds a key inserts into the mapping.
proof fn lemma_map_of_update(s: Seq<(String, String)>, i: int, e: (String, String))
    requires
        0 <= i < s.len(),
        forall|p: int, q: int|
            0 <= p < q < s.len() ==> (#[trigger] s[p]).0@ != (#[trigger] s[q]).0@,
        e.0@ == (s[i]).0@,
    ensures
        map_of(s.update(i, e)) == map_of(s).insert(e.0@, e.1@),
    decreases s.len(),
{
    assert(forall|p: int| 0 <= p < s.len() - 1 ==> #[trigger] s.drop_last()[p] == s[p]);
    if i == s.len() - 1 {
        assert(s.update(i, e).drop_last() =~= s.drop_last());
        assert(s.update(i, e).last() == e);
        assert(map_of(s.drop_last()).insert(s.last().0@, s.last().1@).insert(e.0@, e.1@)
            =~= map_of(s.drop_last()).insert(e.0@, e.1@));
    } else {
        assert(s.update(i, e).drop_last() =~= s.drop_last().update(i, e));
        assert(s.update(i, e).last() == s.last());
        lemma_map_of_update(s.drop_last(), i, e);
        assert(e.0@ != s.last().0@);
        assert(map_of(s.drop_last()).insert(e.0@, e.1@).insert(s.last().0@, s.last().1@)
            =~= map_of(s.drop_last()).insert(s.last().0@, s.last().1@).insert(e.0@, e.1@));
    }
}

/// Placing an entry under a fresh key inserts into the mapping, wherever
/// in the sequence it lands.
proof fn lemma_map_of_insert_at(s: Seq<(String, String)>, i: int, e: (String, String))
    requires
        0 <= i <= s.len(),
        forall|p: int| 0 <= p < s.len() ==> (#[trigger] s[p]).0@ != e.0@,
    ensures
        map_of(s.insert(i, e)) == map_of(s).insert(e.0@, e.1@),
    decreases s.len(),
{
    assert(forall|p: int| 0 <= p < s.len() - 1 ==> #[trigger] s.drop_last()[p] == s[p]);
    if i == s.len() {
        assert(s.insert(i, e).drop_last() =~= s);
        assert(s.insert(i, e).last() == e);
    } else {
        assert(s.insert(i, e).drop_last() =~= s.drop_last().insert(i, e));
        assert(s.insert(i, e).last() == s.last());
        lemma_map_of_insert_at(s.drop_last(), i, e);
        assert(e.0@ != s.last().0@);
        assert(map_of(s.drop_last()).insert(e.0@, e.1@).insert(s.last().0@, s.last().1@)
            =~= map_of(s.drop_last()).insert(s.last().0@, s.last().1@).insert(e.0@, e.1@));
    }
}

/// Access to the executables a finished build produced, keyed by their
/// identifier: the file name without directory and extension.
#[derive(Debug)]
pub struct BinTest {
    build_executables: Vec<(String, String)>,
}

impl View for BinTest {
    type V = Map<Seq<char>, Seq<char>>;

    /// The finished mapping from identifier to path.
    closed spec fn view(&self) -> Map<Seq<char>, Seq<char>> {
        map_of(self.build_executables@)
    }
}

/// Whether an artifact message passes without a fault: everything but an
/// artifact whose executable path lacks a file name.
pub open spec fn msg_accepted(mv: MsgView) -> bool {
    match mv {
        MsgView::Artifact { executable: Some(p) } => file_name_of(p).len() > 0,
        _ => true,
    }
}

/// What one decoded message does to the finished mapping: an artifact
/// with an executable path adds or overwrites the entry under the path's
/// stem; everything else leaves the mapping as it was.
pub open spec fn spec_apply(
    m: Map<Seq<char>, Seq<char>>,
    mv: MsgView,
) -> Map<Seq<char>, Seq<char>> {
    match mv {
        MsgView::Artifact { executable: Some(p) } => if file_name_of(p).len() > 0 {
            m.insert(stem_of(file_name_of(p)), p)
        } else {
            m
        },
        _ => m,
    }
}

/// The mapping a whole stream yields, line by line from the front, or
/// nothing where some line is fatal.
pub open spec fn spec_run(lines: Seq<Seq<char>>) -> Option<Map<Seq<char>, Seq<char>>>
    decreases lines.len(),
{
    if lines.len() == 0 {
        Some(Map::<Seq<char>, Seq<char>>::empty())
    } else {
        match spec_run(lines.drop_last()) {
            Some(m) => match parse_of(lines.last()) {
                Some(mv) => if msg_accepted(mv) {
                    Some(spec_apply(m, mv))
                } else {
                    None
                },
                None => None,
            },
            None => None,
        }
    }
}

/// A run that has failed on some prefix has failed for good.
proof fn lemma_spec_run_prefix_none(lines: Seq<Seq<char>>, j: int)
    requires
        0 <= j <= lines.len(),
        spec_run(lines.take(j)) is None,
    ensures
        spec_run(lines) is None,
    decreases lines.len() - j,
{
    if j == lines.len() {
        assert(lines.take(j) =~= lines);
    } else {
        assert(lines.take(j + 1).drop_last() =~= lines.take(j));
        lemma_spec_run_prefix_none(lines, j + 1);
    }
}

/// The slot where `name` belongs: past every smaller identifier.
fn find_slot(entries: &Vec<(String, String)>, name: &str) -> (r: usize)
    ensures
        r <= entries@.len(),
        forall|j: int| 0 <= j < r ==> lex_lt((#[trigger] entries@[j]).0@, name@),
        r < entries@.len() ==> !lex_lt(entries@[r as int].0@, name@),
{
    let mut i: usize = 0;
    loop
        invariant
            i <= entries@.len(),
            forall|j: int| 0 <= j < i ==> lex_lt((#[trigger] entries@[j]).0@, name@),
        decreases entries@.len() - i,
    {
        if i == entries.len() {
            return i;
        }
        if !str_lt(entries[i].0.as_str(), name) {
            return i;
        }
        i = i + 1;
    }
}

impl BinTest {
    /// A builder for choosing the build's settings, starting from the
    /// defaults.
    pub fn with() -> (r: BinTestBuilder)
        ensures
            !r.spec_build_workspace(),
            r.spec_specific_executable() is None,
            !r.spec_quiet(),
    {
        BinTestBuilder::new()
    }

    /// A finished index with nothing in it.
    pub fn empty() -> (r: BinTest)
        ensures
            r.wf(),
            r@ == Map::<Seq<char>, Seq<char>>::empty(),
            r.list_view() == Seq::<(Seq<char>, Seq<char>)>::empty(),
    {
        let r = BinTest { build_executables: Vec::new() };
        proof {
            assert(r.list_view() =~= Seq::<(Seq<char>, Seq<char>)>::empty());
        }
        r
    }

    /// The entries as a caller sees them, in index order.
    pub closed spec fn list_view(&self) -> Seq<(Seq<char>, Seq<char>)> {
        self.build_executables.deep_view()
    }

    /// The index keeps its identifiers strictly ascending.
    pub closed spec fn wf(&self) -> bool {
        keys_strictly_sorted(self.build_executables@)
    }

    /// Adds or overwrites the entry for `name`: the mapping gains exactly
    /// this pair, and order is kept.
    fn insert_entry(&mut self, name: String, path: String)
        requires
            old(self).wf(),
        ensures
            final(self).wf(),
            final(self)@ == old(self)@.insert(name@, path@),
    {
        let ghost s0 = self.build_executables@;
        let i = find_slot(&self.build_executables, name.as_str());
        let mut replace = false;
        if i < self.build_executables.len() {
            let e = &self.build_executables[i];
            if e.0 == name {
                replace = true;
            }
        }
        if replace {
            proof {
                lemma_sorted_keys_distinct(s0);
            }
            self.build_executables.remove(i);
            self.build_executables.insert(i, (name, path));
            proof {
                let e = (final(self)).build_executables@[i as int];
                assert(self.build_executables@ =~= s0.update(i as int, e));
                lemma_map_of_update(s0, i as int, e);
                assert forall|p: int, q: int|
                    0 <= p < q < self.build_executables@.len() implies lex_lt(
                    (#[trigger] self.build_executables@[p]).0@,
                    (#[trigger] self.build_executables@[q]).0@,
                ) by {
                    assert(s0[p].0@ == self.build_executables@[p].0@ || p == i);
                    assert(s0[q].0@ == self.build_executables@[q].0@ || q == i);
                    assert(lex_lt(s0[p].0@, s0[q].0@));
                }
            }
        } else {
            proof {
                if i < s0.len() {
                    assert(!lex_lt(s0[i as int].0@, name@));
                    if s0[i as int].0@ != name@ {
                        if !lex_lt(name@, s0[i as int].0@) {
                            lemma_lex_lt_connected(s0[i as int].0@, name@);
                        }
                    } else {
                        assert(false);
                    }
                    assert(lex_lt(name@, s0[i as int].0@));
                }
                assert forall|p: int| 0 <= p < s0.len() implies (#[trigger] s0[p]).0@ != name@ by {
                    if p < i {
                        if s0[p].0@ == name@ {
                            lemma_lex_lt_irreflexive(name@);
                        }
                    } else {
                        if p > i {
                            lemma_lex_lt_transitive(name@, s0[i as int].0@, s0[p].0@);
                        }
                        if s0[p].0@ == name@ {
                            lemma_lex_lt_irreflexive(name@);
                        }
                    }
                }
            }
            let ghost e = (name@, path@);
            self.build_executables.insert(i, (name, path));
            proof {
                let en = self.build_executables@[i as int];
                assert(en.0@ == e.0 && en.1@ == e.1);
                lemma_map_of_insert_at(s0, i as int, en);
                assert forall|p: int, q: int|
                    0 <= p < q < self.build_executables@.len() implies lex_lt(
                    (#[trigger] self.build_executables@[p]).0@,
                    (#[trigger] self.build_executables@[q]).0@,
                ) by {
                    let sn = self.build_executables@;
                    if q < i {
                        assert(sn[p] == s0[p] && sn[q] == s0[q]);
                    } else if q == i {
                        assert(sn[p] == s0[p]);
                        assert(lex_lt(s0[p].0@, name@));
                    } else {
                        assert(sn[q] == s0[q - 1]);
                        if p < i {
                            assert(sn[p] == s0[p]);
                            if i < s0.len() {
                                if p == q - 1 {
                                    assert(lex_lt(sn[p].0@, name@));
                                    assert(false);
                                } else {
                                    assert(lex_lt(s0[p].0@, s0[q - 1].0@));
                                }
                            } else {
                                assert(lex_lt(s0[p].0@, s0[q - 1].0@));
                            }
                        } else if p == i {
                            assert(lex_lt(name@, s0[i as int].0@));
                            if q - 1 == i {
                                assert(lex_lt(sn[p].0@, sn[q].0@));
                            } else {
                                lemma_lex_lt_transitive(name@, s0[i as int].0@, s0[q - 1].0@);
                            }
                        } else {
                            assert(sn[p] == s0[p - 1]);
                            assert(lex_lt(s0[p - 1].0@, s0[q - 1].0@));
                        }
                    }
                }
            }
        }
    }

    /// Applies one decoded message: an artifact with an executable path
    /// adds or overwrites the entry under the path's stem; an artifact
    /// without one, and every other message kind, changes nothing. Fails
    /// only where the path holds no file name.
    pub fn apply_message(&mut self, msg: LineMsg) -> (r: Result<(), BuildFault>)
        requires
            old(self).wf(),
        ensures
            final(self).wf(),
            final(self)@ == spec_apply(old(self)@, msg@),
            r is Ok <==> msg_accepted(msg@),
            r is Err ==> r == Err::<(), BuildFault>(BuildFault::NoFileName),
    {
        match msg {
            LineMsg::Artifact { executable: Some(path) } => {
                match file_stem(path.as_str()) {
                    Some(stem) => {
                        self.insert_entry(stem, path);
                        Ok(())
                    },
                    None => Err(BuildFault::NoFileName),
                }
            },
            LineMsg::Artifact { executable: None } => Ok(()),
            LineMsg::Other => Ok(()),
        }
    }

    /// Digests one line of the stream: decodes it and applies the message.
    /// A line that is no message is fatal, as is an executable path with
    /// no file name; every other line either adds its artifact's entry or
    /// leaves the index as it was.
    pub fn handle_line(&mut self, line: &str) -> (r: Result<(), BuildFault>)
        requires
            old(self).wf(),
        ensures
            final(self).wf(),
            match parse_of(line@) {
                None => (r matches Err(BuildFault::MalformedLine { .. })) && final(self)@ == old(
                    self,
                )@,
                Some(mv) => final(self)@ == spec_apply(old(self)@, mv) && (r is Ok
                    <==> msg_accepted(mv)) && (r is Err ==> r == Err::<(), BuildFault>(
                    BuildFault::NoFileName,
                )),
            },
    {
        match parse_message_line(line) {
            Ok(m) => self.apply_message(m),
            Err(detail) => Err(BuildFault::MalformedLine { detail }),
        }
    }

    /// Builds an index from a whole stream, line by line from the front,
    /// as one run over the build tool's output does: the first fatal line
    /// stops the run with its fault.
    pub fn from_lines(lines: &Vec<String>) -> (r: Result<BinTest, BuildFault>)
        ensures
            match r {
                Ok(b) => b.wf() && spec_run(lines.deep_view()) == Some(b@),
                Err(f) => spec_run(lines.deep_view()) is None && exists|j: int|
                    0 <= j < lines.deep_view().len() && #[trigger] spec_run(
                        lines.deep_view().take(j),
                    ) is Some && match parse_of(lines.deep_view()[j]) {
                        None => f matches BuildFault::MalformedLine { .. },
                        Some(mv) => !msg_accepted(mv) && f == BuildFault::NoFileName,
                    },
            },
    {
        let mut b = BinTest::empty();
        let mut i: usize = 0;
        loop
            invariant
                i <= lines@.len(),
                b.wf(),
                spec_run(lines.deep_view().take(i as int)) == Some(b@),
            decreases lines@.len() - i,
        {
            if i == lines.len() {
                proof {
                    assert(lines.deep_view().take(i as int) =~= lines.deep_view());
                }
                return Ok(b);
            }
            proof {
                assert(lines.deep_view().take(i + 1).drop_last() =~= lines.deep_view().take(
                    i as int,
                ));
                assert(lines.deep_view().take(i + 1).last() == lines@[i as int]@);
            }
            match b.handle_line(lines[i].as_str()) {
                Ok(_) => {},
                Err(f) => {
                    proof {
                        assert(spec_run(lines.deep_view().take(i + 1)) is None);
                        lemma_spec_run_prefix_none(lines.deep_view(), i + 1);
                        assert(spec_run(lines.deep_view().take(i as int)) is Some);
                    }
                    return Err(f);
                },
            }
            i = i + 1;
        }
    }

    /// All entries, in ascending identifier order: a read-only view of the
    /// finished index, safe to walk any number of times.
    pub fn list_executables(&self) -> (r: &Vec<(String, String)>)
        ensures
            r.deep_view() == self.list_view(),
            r@.len() == self.list_view().len(),
    {
        &self.build_executables
    }

    /// The stored path for an identifier: the lookup behind command
    /// creation. Nothing exactly where the identifier is unregistered.
    pub fn command_path(&self, name: &str) -> (r: Option<&String>)
        requires
            self.wf(),
        ensures
            match r {
                Some(p) => self@.contains_key(name@) && p@ == self@[name@],
                None => !self@.contains_key(name@),
            },
    {
        let key = name.to_owned();
        let mut i: usize = 0;
        loop
            invariant
                self.wf(),
                key@ == name@,
                i <= self.build_executables@.len(),
                forall|j: int|
                    0 <= j < i ==> (#[trigger] self.build_executables@[j]).0@ != name@,
            decreases self.build_executables@.len() - i,
        {
            if i == self.build_executables.len() {
                proof {
                    lemma_map_of_contains(self.build_executables@, name@);
                }
                return None;
            }
            let e = &self.build_executables[i];
            if e.0 == key {
                proof {
                    lemma_sorted_keys_distinct(self.build_executables@);
                    lemma_map_of_value(self.build_executables@, i as int);
                }
                return Some(&e.1);
            }
            i = i + 1;
        }
    }
}

/// The text with which a lookup of an unknown identifier aborts, naming
/// the identifier.
pub fn missing_executable_message(name: &str) -> (r: String)
    ensures
        r@ == "no such executable <<"@ + name@ + ">>"@,
{
    let mut m = String::from_str("no such executable <<");
    m.append(name);
    m.append(">>");
    m
}

/// Two artifact messages for the same identifier leave the later path:
/// the index is last-write-wins.
pub proof fn lemma_last_write_wins(m: Map<Seq<char>, Seq<char>>, p1: Seq<char>, p2: Seq<char>)
    requires
        file_name_of(p1).len() > 0,
        file_name_of(p2).len() > 0,
        stem_of(file_name_of(p1)) == stem_of(file_name_of(p2)),
    ensures
        spec_apply(
            spec_apply(m, MsgView::Artifact { executable: Some(p1) }),
            MsgView::Artifact { executable: Some(p2) },
        ) == m.insert(stem_of(file_name_of(p2)), p2),
{
    assert(m.insert(stem_of(file_name_of(p1)), p1).insert(stem_of(file_name_of(p2)), p2)
        =~= m.insert(stem_of(file_name_of(p2)), p2));
}

/// An artifact message with no executable path contributes no entry and
/// is not fatal.
pub proof fn lemma_no_executable_no_entry(m: Map<Seq<char>, Seq<char>>)
    ensures
        spec_apply(m, MsgView::Artifact { executable: None }) == m,
        msg_accepted(MsgView::Artifact { executable: None }),
{
}

/// A message of any other kind contributes no entry and is not fatal.
pub proof fn lemma_other_message_no_entry(m: Map<Seq<char>, Seq<char>>)
    ensures
        spec_apply(m, MsgView::Other) == m,
        msg_accepted(MsgView::Other),
{
}

/// What `list_executables` hands out describes the finished index
/// exactly: identifiers strictly ascend, every pair is an entry of the
/// mapping, and every key of the mapping appears. Two walks over one
/// finished index therefore see one and the same sequence.
pub proof fn lemma_list_matches_index(b: &BinTest)
    requires
        b.wf(),
    ensures
        forall|i: int, j: int|
            0 <= i < j < b.list_view().len() ==> lex_lt(
                (#[trigger] b.list_view()[i]).0,
                (#[trigger] b.list_view()[j]).0,
            ),
        forall|i: int|
            0 <= i < b.list_view().len() ==> b@.contains_key((#[trigger] b.list_view()[i]).0)
                && b@[b.list_view()[i].0] == b.list_view()[i].1,
        forall|k: Seq<char>| #[trigger]
            b@.contains_key(k) ==> exists|i: int|
                0 <= i < b.list_view().len() && (#[trigger] b.list_view()[i]).0 == k,
{
    let s = b.build_executables@;
    lemma_sorted_keys_distinct(s);
    assert(forall|i: int|
        0 <= i < s.len() ==> (#[trigger] b.list_view()[i]) == ((s[i]).0@, (s[i]).1@));
    assert forall|i: int|
        0 <= i < b.list_view().len() implies b@.contains_key((#[trigger] b.list_view()[i]).0)
        && b@[b.list_view()[i].0] == b.list_view()[i].1 by {
        lemma_map_of_value(s, i);
    }
    assert forall|k: Seq<char>| #[trigger] b@.contains_key(k) implies exists|i: int|
        0 <= i < b.list_view().len() && (#[trigger] b.list_view()[i]).0 == k by {
        lemma_map_of_contains(s, k);
        let i = choose|i: int| 0 <= i < s.len() && (#[trigger] s[i]).0@ == k;
        assert((b.list_view()[i]).0 == k);
    }
}

} // verus!
