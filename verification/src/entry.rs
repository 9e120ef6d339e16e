//! Directory entries: filtering of hidden names, decoration of directory
//! names with a trailing separator, insertion sort by name, and the parent
//! sentinel that heads every listing.

use vstd::prelude::*;
use vstd::multiset::Multiset;
use vstd::seq_lib::*;
use vstd::string::StrSliceExecFns;
use vstd::string::StringExecFns;
use crate::order::{lex_le, str_le, lemma_lex_le_total, lemma_lex_le_trans};

verus! {

/// What one listing entry stands for.
#[derive(Clone, Copy, PartialEq, Eq, Structural, Debug)]
pub enum EntryKind {
    Parent,
    Directory,
    File,
}

/// One navigable item of a directory listing. `name` is the display string:
/// directory names carry a trailing `/`, the parent sentinel is `..`.
#[derive(Debug)]
pub struct Entry {
    pub name: String,
    pub kind: EntryKind,
}

/// One raw child as the filesystem reports it: undecorated name and whether
/// it is a directory.
#[derive(Debug)]
pub struct ChildInfo {
    pub name: String,
    pub is_dir: bool,
}

/// The observable content of an entry: its name characters and its kind.
pub open spec fn entry_key(e: Entry) -> (Seq<char>, EntryKind) {
    (e.name@, e.kind)
}

pub open spec fn keys_of(s: Seq<Entry>) -> Seq<(Seq<char>, EntryKind)> {
    s.map_values(|e: Entry| entry_key(e))
}

/// A name beginning with a dot is hidden and excluded from listings.
pub open spec fn hidden(name: Seq<char>) -> bool {
    name.len() > 0 && name[0] == '.'
}

/// The key a child contributes to a listing: directories get a trailing `/`.
pub open spec fn child_key(c: ChildInfo) -> (Seq<char>, EntryKind) {
    if c.is_dir {
        (c.name@ + "/"@, EntryKind::Directory)
    } else {
        (c.name@, EntryKind::File)
    }
}

/// The keys of the children that survive the hidden-name filter, in input
/// order.
pub open spec fn visible_keys(cs: Seq<ChildInfo>) -> Seq<(Seq<char>, EntryKind)> {
    cs.filter(|c: ChildInfo| !hidden(c.name@)).map_values(|c: ChildInfo| child_key(c))
}

/// Non-decreasing by name under lexicographic order.
pub open spec fn keys_sorted(ks: Seq<(Seq<char>, EntryKind)>) -> bool {
    forall|i: int, j: int| 0 <= i < j < ks.len() ==> lex_le(ks[i].0, ks[j].0)
}

/// Insert one key into a sorted key sequence, after every key whose name is
/// not greater.
pub open spec fn insert_key(
    x: (Seq<char>, EntryKind),
    t: Seq<(Seq<char>, EntryKind)>,
) -> Seq<(Seq<char>, EntryKind)>
    decreases t.len(),
{
    if t.len() == 0 {
        seq![x]
    } else if lex_le(t[0].0, x.0) {
        seq![t[0]] + insert_key(x, t.drop_first())
    } else {
        seq![x] + t
    }
}

/// Insertion sort by name, processing the sequence from the back.
pub open spec fn sort_keys(s: Seq<(Seq<char>, EntryKind)>) -> Seq<(Seq<char>, EntryKind)>
    decreases s.len(),
{
    if s.len() == 0 {
        Seq::empty()
    } else {
        insert_key(s.last(), sort_keys(s.drop_last()))
    }
}

/// Appending one child extends the visible keys by its key exactly when the
/// child is not hidden.
proof fn lemma_visible_keys_push(cs: Seq<ChildInfo>, c: ChildInfo)
    ensures
        visible_keys(cs.push(c)) == (if hidden(c.name@) {
            visible_keys(cs)
        } else {
            visible_keys(cs).push(child_key(c))
        }),
{
    let s = cs.push(c);
    assert(s.drop_last() =~= cs);
    assert(s.last() == c);
    reveal_with_fuel(Seq::filter, 2);
    let pred = |x: ChildInfo| !hidden(x.name@);
    if !hidden(c.name@) {
        assert(s.filter(pred) == cs.filter(pred).push(c));
        assert(cs.filter(pred).push(c).map_values(|x: ChildInfo| child_key(x)) =~= cs.filter(
            pred,
        ).map_values(|x: ChildInfo| child_key(x)).push(child_key(c)));
    } else {
        assert(s.filter(pred) == cs.filter(pred));
    }
}

proof fn lemma_insert_key_props(x: (Seq<char>, EntryKind), t: Seq<(Seq<char>, EntryKind)>)
    requires
        keys_sorted(t),
    ensures
        keys_sorted(insert_key(x, t)),
        insert_key(x, t).to_multiset() == t.to_multiset().insert(x),
        insert_key(x, t).len() == t.len() + 1,
        forall|k: int|
            0 <= k < insert_key(x, t).len() ==> insert_key(x, t)[k] == x || t.contains(
                insert_key(x, t)[k],
            ),
    decreases t.len(),
{
    broadcast use vstd::seq_lib::group_to_multiset_ensures;

    let r = insert_key(x, t);
    if t.len() == 0 {
        assert(r =~= Seq::empty().push(x));
        assert(Seq::<(Seq<char>, EntryKind)>::empty().push(x).to_multiset() =~= Multiset::empty().insert(x));
        assert(t.to_multiset() =~= Multiset::empty());
    } else if lex_le(t[0].0, x.0) {
        let t1 = t.drop_first();
        assert(keys_sorted(t1)) by {
            assert(forall|i: int, j: int|
                0 <= i < j < t1.len() ==> t1[i] == t[i + 1] && t1[j] == t[j + 1]);
        }
        lemma_insert_key_props(x, t1);
        let r1 = insert_key(x, t1);
        assert(r =~= seq![t[0]] + r1);
        // every element of the tail insertion is bounded below by t[0]
        assert forall|k: int| 0 <= k < r.len() implies (r[k] == x || t.contains(r[k])) by {
            if k == 0 {
                assert(t.contains(t[0])) by {
                    assert(t[0] == t[0]);
                }
            } else {
                assert(r[k] == r1[k - 1]);
                if r1[k - 1] == x {
                } else {
                    assert(t1.contains(r1[k - 1]));
                    let m = choose|m: int| 0 <= m < t1.len() && t1[m] == r1[k - 1];
                    assert(t[m + 1] == t1[m]);
                }
            }
        }
        assert(keys_sorted(r)) by {
            assert forall|i: int, j: int| 0 <= i < j < r.len() implies lex_le(r[i].0, r[j].0) by {
                if i == 0 {
                    if r[j] == x {
                        assert(lex_le(t[0].0, x.0));
                    } else {
                        assert(t.contains(r[j]));
                        let m = choose|m: int| 0 <= m < t.len() && t[m] == r[j];
                        if m == 0 {
                            lemma_lex_le_total(t[0].0, t[0].0);
                        } else {
                            assert(lex_le(t[0].0, t[m].0));
                        }
                    }
                } else {
                    assert(r[i] == r1[i - 1]);
                    assert(r[j] == r1[j - 1]);
                    assert(lex_le(r1[i - 1].0, r1[j - 1].0));
                }
            }
        }
        assert(r.to_multiset() =~= t.to_multiset().insert(x)) by {
            assert((seq![t[0]] + r1).to_multiset() == seq![t[0]].to_multiset().add(
                r1.to_multiset(),
            )) by {
                lemma_multiset_commutative(seq![t[0]], r1);
            }
            assert((seq![t[0]] + t1).to_multiset() == seq![t[0]].to_multiset().add(
                t1.to_multiset(),
            )) by {
                lemma_multiset_commutative(seq![t[0]], t1);
            }
            assert(seq![t[0]] + t1 =~= t);
        }
    } else {
        assert(r =~= seq![x] + t);
        assert(r.to_multiset() =~= t.to_multiset().insert(x)) by {
            lemma_multiset_commutative(seq![x], t);
            assert(seq![x].to_multiset() =~= Multiset::empty().insert(x));
        }
        assert forall|k: int| 0 <= k < r.len() implies (r[k] == x || t.contains(r[k])) by {
            if k > 0 {
                assert(r[k] == t[k - 1]);
                assert(t.contains(t[k - 1]));
            }
        }
        assert(keys_sorted(r)) by {
            assert forall|i: int, j: int| 0 <= i < j < r.len() implies lex_le(r[i].0, r[j].0) by {
                if i == 0 {
                    assert(r[j] == t[j - 1]);
                    lemma_lex_le_total(t[0].0, x.0);
                    if j - 1 > 0 {
                        assert(lex_le(t[0].0, t[j - 1].0));
                        lemma_lex_le_trans(x.0, t[0].0, t[j - 1].0);
                    }
                } else {
                    assert(r[i] == t[i - 1] && r[j] == t[j - 1]);
                }
            }
        }
    }
}

/// Sorting leaves a listing non-decreasing by name: every insertion-sorted
/// key sequence satisfies `keys_sorted`.
pub proof fn lemma_sort_keys_sorted(s: Seq<(Seq<char>, EntryKind)>)
    ensures
        keys_sorted(sort_keys(s)),
        sort_keys(s).len() == s.len(),
    decreases s.len(),
{
    if s.len() > 0 {
        lemma_sort_keys_sorted(s.drop_last());
        lemma_insert_key_props(s.last(), sort_keys(s.drop_last()));
    }
}

/// Sorting permutes the keys: the multiset of keys is unchanged.
pub proof fn lemma_sort_keys_multiset(s: Seq<(Seq<char>, EntryKind)>)
    ensures
        sort_keys(s).to_multiset() == s.to_multiset(),
    decreases s.len(),
{
    broadcast use vstd::seq_lib::group_to_multiset_ensures;

    if s.len() == 0 {
        assert(s.to_multiset() =~= Multiset::empty());
    } else {
        lemma_sort_keys_multiset(s.drop_last());
        lemma_sort_keys_sorted(s.drop_last());
        lemma_insert_key_props(s.last(), sort_keys(s.drop_last()));
        assert(s.drop_last().push(s.last()) =~= s);
        assert(s.drop_last().push(s.last()).to_multiset() == s.drop_last().to_multiset().insert(
            s.last(),
        ));
    }
}

/// Where the scan of the exec insertion stops is exactly where `insert_key`
/// places the new key.
proof fn lemma_insert_key_at(
    x: (Seq<char>, EntryKind),
    t: Seq<(Seq<char>, EntryKind)>,
    j: int,
)
    requires
        keys_sorted(t),
        0 <= j <= t.len(),
        forall|k: int| 0 <= k < j ==> lex_le(t[k].0, x.0),
        j < t.len() ==> !lex_le(t[j].0, x.0),
    ensures
        insert_key(x, t) == t.insert(j, x),
    decreases j,
{
    if j == 0 {
        if t.len() == 0 {
            assert(insert_key(x, t) =~= t.insert(0, x));
        } else {
            assert(insert_key(x, t) =~= t.insert(0, x));
        }
    } else {
        let t1 = t.drop_first();
        assert(keys_sorted(t1)) by {
            assert(forall|i: int, k: int|
                0 <= i < k < t1.len() ==> t1[i] == t[i + 1] && t1[k] == t[k + 1]);
        }
        assert(forall|k: int| 0 <= k < j - 1 ==> t1[k] == t[k + 1] && lex_le(t1[k].0, x.0));
        assert(j - 1 < t1.len() ==> t1[j - 1] == t[j]);
        lemma_insert_key_at(x, t1, j - 1);
        assert(lex_le(t[0].0, x.0));
        assert(insert_key(x, t) == seq![t[0]] + insert_key(x, t1));
        assert(seq![t[0]] + t1.insert(j - 1, x) =~= t.insert(j, x));
    }
}

/// Insert an entry into a name-sorted vector, keeping it sorted.
fn insert_entry_sorted(v: &mut Vec<Entry>, e: Entry)
    requires
        keys_sorted(keys_of(old(v)@)),
    ensures
        keys_of(final(v)@) == insert_key(entry_key(e), keys_of(old(v)@)),
{
    let ghost ks = keys_of(v@);
    let mut j: usize = 0;
    loop
        invariant
            j <= v.len(),
            v@ == old(v)@,
            ks == keys_of(v@),
            forall|k: int| 0 <= k < j ==> lex_le(ks[k].0, e.name@),
        ensures
            j <= v.len(),
            v@ == old(v)@,
            forall|k: int| 0 <= k < j ==> lex_le(ks[k].0, e.name@),
            j < v.len() ==> !lex_le(ks[j as int].0, e.name@),
        decreases v.len() - j,
    {
        if j == v.len() {
            break;
        }
        assert(ks[j as int] == entry_key(v@[j as int]));
        if !str_le(&v[j].name, &e.name) {
            break;
        }
        j = j + 1;
    }
    proof {
        lemma_insert_key_at(entry_key(e), ks, j as int);
    }
    v.insert(j, e);
    proof {
        assert(keys_of(v@) =~= ks.insert(j as int, entry_key(e)));
    }
}

/// Sort a vector of entries by name with insertion sort; the result's keys
/// are exactly `sort_keys` of the input's keys.
pub fn sort_entries(entries: Vec<Entry>) -> (r: Vec<Entry>)
    ensures
        keys_of(r@) == sort_keys(keys_of(entries@)),
{
    let ghost orig: Seq<Entry> = entries@;
    let mut rest = entries;
    let mut out: Vec<Entry> = Vec::new();
    loop
        invariant
            rest@ == orig.skip(orig.len() - rest@.len()),
            rest@.len() <= orig.len(),
            keys_of(out@) == sort_keys(keys_of(orig.take(orig.len() - rest@.len()))),
        ensures
            keys_of(out@) == sort_keys(keys_of(orig)),
        decreases rest@.len(),
    {
        let ghost i = orig.len() - rest@.len();
        if rest.len() == 0 {
            proof {
                assert(orig.take(orig.len() - rest@.len()) =~= orig);
            }
            break;
        }
        assert(rest@[0] == orig[i]);
        let e = rest.remove(0);
        proof {
            assert(rest@ =~= orig.skip(i + 1));
            lemma_sort_keys_sorted(keys_of(orig.take(i)));
        }
        let ghost ks_before = keys_of(out@);
        insert_entry_sorted(&mut out, e);
        proof {
            assert(keys_of(orig.take(i + 1)).drop_last() =~= keys_of(orig.take(i)));
            assert(keys_of(orig.take(i + 1)).last() == entry_key(orig[i]));
            assert(keys_of(out@) == sort_keys(keys_of(orig.take(i + 1))));
        }
    }
    out
}

/// Build the entry list for one directory from its raw children: drop hidden
/// names, decorate directories with a trailing `/`, sort by name, and put
/// the parent sentinel `..` first.
pub fn build_entries(children: Vec<ChildInfo>) -> (r: Vec<Entry>)
    ensures
        r@.len() >= 1,
        r@[0].kind == EntryKind::Parent,
        r@[0].name@ == ".."@,
        keys_of(r@.skip(1)) == sort_keys(visible_keys(children@)),
{
    let ghost orig: Seq<ChildInfo> = children@;
    let mut rest = children;
    let mut pending: Vec<Entry> = Vec::new();
    loop
        invariant
            rest@ == orig.skip(orig.len() - rest@.len()),
            rest@.len() <= orig.len(),
            keys_of(pending@) == visible_keys(orig.take(orig.len() - rest@.len())),
        ensures
            keys_of(pending@) == visible_keys(orig),
        decreases rest@.len(),
    {
        let ghost i = orig.len() - rest@.len();
        if rest.len() == 0 {
            proof {
                assert(orig.take(orig.len() - rest@.len()) =~= orig);
            }
            break;
        }
        assert(rest@[0] == orig[i]);
        let c = rest.remove(0);
        proof {
            assert(rest@ =~= orig.skip(i + 1));
            assert(orig.take(i + 1) =~= orig.take(i).push(orig[i]));
            lemma_visible_keys_push(orig.take(i), orig[i]);
        }
        let is_hidden = {
            let len = c.name.unicode_len();
            len > 0 && c.name.get_char(0) == '.'
        };
        assert(is_hidden == hidden(c.name@));
        if !is_hidden {
            let e = if c.is_dir {
                Entry { name: c.name.concat("/"), kind: EntryKind::Directory }
            } else {
                Entry { name: c.name, kind: EntryKind::File }
            };
            assert(entry_key(e) == child_key(orig[i]));
            pending.push(e);
            proof {
                assert(keys_of(pending@) =~= visible_keys(orig.take(i)).push(child_key(orig[i])));
            }
        } else {
            proof {
                assert(keys_of(pending@) =~= visible_keys(orig.take(i + 1)));
            }
        }
    }
    let mut sorted = sort_entries(pending);
    let mut r: Vec<Entry> = Vec::new();
    r.push(Entry { name: String::from_str(".."), kind: EntryKind::Parent });
    r.append(&mut sorted);
    proof {
        assert(keys_of(r@.skip(1)) =~= sort_keys(visible_keys(orig)));
    }
    r
}

} // verus!
