use vstd::prelude::*;
use crate::raw::{entries_view, lemma_entries_view_index, raw_view, RawVal, RawValue};

verus! {

/// Strict lexicographic order on character sequences, by code point.
pub open spec fn lex_lt(a: Seq<char>, b: Seq<char>) -> bool
    decreases a.len(),
{
    if b.len() == 0 {
        false
    } else if a.len() == 0 {
        true
    } else if a[0] != b[0] {
        (a[0] as u32) < (b[0] as u32)
    } else {
        lex_lt(a.drop_first(), b.drop_first())
    }
}

/// `lex_lt` never holds of a sequence and itself.
pub proof fn lemma_lex_irrefl(a: Seq<char>)
    ensures
        !lex_lt(a, a),
    decreases a.len(),
{
    if a.len() > 0 {
        lemma_lex_irrefl(a.drop_first());
    }
}

/// Two sequences neither of which is below the other are equal.
pub proof fn lemma_lex_connex(a: Seq<char>, b: Seq<char>)
    requires
        !lex_lt(a, b),
        !lex_lt(b, a),
    ensures
        a == b,
    decreases a.len(),
{
    if a.len() == 0 || b.len() == 0 {
        assert(a =~= b);
    } else if a[0] == b[0] {
        lemma_lex_connex(a.drop_first(), b.drop_first());
        assert(a.drop_first().len() == b.drop_first().len());
        assert(a.len() == b.len());
        assert forall|i: int| 0 <= i < a.len() implies a[i] == b[i] by {
            if i > 0 {
                assert(a[i] == a.drop_first()[i - 1]);
                assert(b[i] == b.drop_first()[i - 1]);
            }
        }
        assert(a =~= b);
    } else {
        vstd::utf8::char_u32_cast(a[0], a[0] as u32);
        vstd::utf8::char_u32_cast(b[0], b[0] as u32);
    }
}

/// The order is transitive.
pub proof fn lemma_lex_trans(a: Seq<char>, b: Seq<char>, c: Seq<char>)
    requires
        lex_lt(a, b),
        lex_lt(b, c),
    ensures
        lex_lt(a, c),
    decreases a.len(),
{
    if a.len() > 0 && b.len() > 0 && c.len() > 0 {
        if a[0] == b[0] && b[0] == c[0] {
            lemma_lex_trans(a.drop_first(), b.drop_first(), c.drop_first());
        }
    }
}

/// If the first `i` characters agree, the order is decided by the tails.
pub proof fn lemma_lex_common_prefix(a: Seq<char>, b: Seq<char>, i: int)
    requires
        0 <= i <= a.len(),
        0 <= i <= b.len(),
        forall|j: int| 0 <= j < i ==> a[j] == b[j],
    ensures
        lex_lt(a, b) == lex_lt(a.skip(i), b.skip(i)),
    decreases i,
{
    if i > 0 && a.len() > 0 && b.len() > 0 {
        lemma_lex_common_prefix(a.drop_first(), b.drop_first(), i - 1);
        assert(a.drop_first().skip(i - 1) =~= a.skip(i));
        assert(b.drop_first().skip(i - 1) =~= b.skip(i));
    } else {
        assert(a.skip(0) =~= a);
        assert(b.skip(0) =~= b);
    }
}

/// Decides `lex_lt` on two strings.
pub fn str_lt(a: &str, b: &str) -> (r: bool)
    ensures
        r == lex_lt(a@, b@),
{
    let la = a.unicode_len();
    let lb = b.unicode_len();
    let mut i: usize = 0;
    loop
        invariant
            i <= la,
            i <= lb,
            la == a@.len(),
            lb == b@.len(),
            forall|j: int| 0 <= j < i ==> a@[j] == b@[j],
        decreases la - i,
    {
        proof {
            lemma_lex_common_prefix(a@, b@, i as int);
        }
        if i >= lb {
            return false;
        }
        if i >= la {
            return true;
        }
        let ca = a.get_char(i);
        let cb = b.get_char(i);
        proof {
            assert(a@.skip(i as int)[0] == a@[i as int]);
            assert(b@.skip(i as int)[0] == b@[i as int]);
        }
        if ca != cb {
            return (ca as u32) < (cb as u32);
        }
        i += 1;
    }
}

/// Places an entry into a key-sorted entry sequence, before the first
/// entry whose key is not below the new one.
pub open spec fn insert_sorted(
    e: (Seq<char>, RawVal),
    s: Seq<(Seq<char>, RawVal)>,
) -> Seq<(Seq<char>, RawVal)>
    decreases s,
{
    if s.len() == 0 {
        seq![e]
    } else if !lex_lt(s[0].0, e.0) {
        seq![e] + s
    } else {
        seq![s[0]] + insert_sorted(e, s.drop_first())
    }
}

/// Sorts an entry sequence by key, one insertion per entry, later
/// entries inserted later.
pub open spec fn sort_entries(s: Seq<(Seq<char>, RawVal)>) -> Seq<(Seq<char>, RawVal)>
    decreases s,
{
    if s.len() == 0 {
        Seq::empty()
    } else {
        insert_sorted(s.last(), sort_entries(s.drop_last()))
    }
}

/// `insert_sorted` is insertion at the first position whose key is not
/// below the new entry's key.
proof fn lemma_insert_at(s: Seq<(Seq<char>, RawVal)>, e: (Seq<char>, RawVal), p: int)
    requires
        0 <= p <= s.len(),
        forall|q: int| #![trigger s[q]] 0 <= q < p ==> lex_lt(s[q].0, e.0),
        p < s.len() ==> !lex_lt(s[p].0, e.0),
    ensures
        insert_sorted(e, s) == s.insert(p, e),
    decreases s,
{
    if s.len() == 0 {
        assert(insert_sorted(e, s) =~= s.insert(0, e));
    } else if !lex_lt(s[0].0, e.0) {
        assert(p == 0);
        assert(insert_sorted(e, s) =~= s.insert(0, e));
    } else {
        assert(forall|q: int| #![trigger s.drop_first()[q]]
            0 <= q < p - 1 ==> s.drop_first()[q] == s[q + 1]);
        lemma_insert_at(s.drop_first(), e, p - 1);
        assert(insert_sorted(e, s) =~= s.insert(p, e));
    }
}

/// Inserts an entry into a vector so that the entry views follow
/// `insert_sorted`.
fn insert_entry(out: &mut Vec<(String, RawValue)>, e: (String, RawValue))
    ensures
        entries_view(final(out)@) == insert_sorted(
            (e.0@, raw_view(e.1)),
            entries_view(old(out)@),
        ),
{
    proof {
        lemma_entries_view_index(out@);
    }
    let mut p: usize = 0;
    loop
        invariant
            p <= out@.len(),
            out@ == old(out)@,
            forall|q: int| #![trigger out@[q]] 0 <= q < p ==> lex_lt(out@[q].0@, e.0@),
        ensures
            p <= out@.len(),
            out@ == old(out)@,
            forall|q: int| #![trigger out@[q]] 0 <= q < p ==> lex_lt(out@[q].0@, e.0@),
            p < out@.len() ==> !lex_lt(out@[p as int].0@, e.0@),
        decreases out@.len() - p,
    {
        if p >= out.len() {
            break;
        }
        if !str_lt(out[p].0.as_str(), e.0.as_str()) {
            break;
        }
        p += 1;
    }
    proof {
        let s = entries_view(out@);
        assert(forall|q: int| #![trigger s[q]] 0 <= q < p ==> s[q] == (out@[q].0@, raw_view(
            out@[q].1,
        )));
        lemma_insert_at(s, (e.0@, raw_view(e.1)), p as int);
    }
    let ghost pre = out@;
    out.insert(p, e);
    proof {
        lemma_entries_view_index(out@);
        lemma_entries_view_index(pre);
        assert(entries_view(out@) =~= entries_view(pre).insert(p as int, (e.0@, raw_view(e.1))));
    }
}

/// Sorts the entries of one mapping level by key; the views of the
/// result follow `sort_entries`.
pub fn sort_entry_vec(es: Vec<(String, RawValue)>) -> (r: Vec<(String, RawValue)>)
    ensures
        entries_view(r@) == sort_entries(entries_view(es@)),
{
    let mut rest = es;
    let ghost orig = rest@;
    let ghost full = entries_view(orig);
    let mut out: Vec<(String, RawValue)> = Vec::new();
    let ghost mut i: int = 0;
    proof {
        lemma_entries_view_index(orig);
        assert(entries_view(out@) =~= Seq::<(Seq<char>, RawVal)>::empty());
        assert(full.take(0) =~= Seq::<(Seq<char>, RawVal)>::empty());
        assert(rest@ =~= orig.skip(0));
    }
    loop
        invariant
            0 <= i <= orig.len(),
            rest@ == orig.skip(i),
            full == entries_view(orig),
            full.len() == orig.len(),
            entries_view(out@) == sort_entries(full.take(i)),
        ensures
            entries_view(out@) == sort_entries(full),
        decreases orig.len() - i,
    {
        proof {
            assert(rest@.len() == orig.len() - i);
        }
        if rest.len() == 0 {
            proof {
                assert(full.take(i) =~= full);
            }
            break;
        }
        let e = rest.remove(0);
        proof {
            assert(e == orig[i]);
            assert(rest@ =~= orig.skip(i + 1));
            lemma_entries_view_index(orig);
            assert(full[i] == (e.0@, raw_view(e.1)));
            assert(full.take(i + 1).drop_last() =~= full.take(i));
            assert(full.take(i + 1).last() == full[i]);
        }
        let ghost before = entries_view(out@);
        insert_entry(&mut out, e);
        proof {
            assert(sort_entries(full.take(i + 1)) == insert_sorted(
                full[i],
                sort_entries(full.take(i)),
            ));
            i = i + 1;
        }
    }
    out
}


/// The position at which `insert_sorted` places an entry.
spec fn ins_pos(e: (Seq<char>, RawVal), s: Seq<(Seq<char>, RawVal)>) -> int
    decreases s,
{
    if s.len() == 0 {
        0int
    } else if !lex_lt(s[0].0, e.0) {
        0int
    } else {
        1 + ins_pos(e, s.drop_first())
    }
}

proof fn lemma_insert_sorted_shape(e: (Seq<char>, RawVal), s: Seq<(Seq<char>, RawVal)>)
    ensures
        0 <= ins_pos(e, s) <= s.len(),
        insert_sorted(e, s) == s.insert(ins_pos(e, s), e),
        forall|q: int| #![trigger s[q]] 0 <= q < ins_pos(e, s) ==> lex_lt(s[q].0, e.0),
        ins_pos(e, s) < s.len() ==> !lex_lt(s[ins_pos(e, s)].0, e.0),
    decreases s,
{
    if s.len() == 0 {
        assert(ins_pos(e, s) == 0);
        assert(insert_sorted(e, s) =~= s.insert(0, e));
    } else if !lex_lt(s[0].0, e.0) {
        assert(ins_pos(e, s) == 0);
        assert(insert_sorted(e, s) =~= s.insert(0, e));
    } else {
        lemma_insert_sorted_shape(e, s.drop_first());
        assert(ins_pos(e, s) == 1 + ins_pos(e, s.drop_first()));
        assert(forall|q: int| #![trigger s.drop_first()[q]]
            0 <= q < s.len() - 1 ==> s.drop_first()[q] == s[q + 1]);
        assert(insert_sorted(e, s) =~= s.insert(ins_pos(e, s), e));
        assert forall|q: int| #![trigger s[q]] 0 <= q < ins_pos(e, s) implies lex_lt(s[q].0, e.0) by {
            if q > 0 {
                assert(s.drop_first()[q - 1] == s[q]);
            }
        }
        if ins_pos(e, s) < s.len() {
            assert(s.drop_first()[ins_pos(e, s.drop_first())] == s[ins_pos(e, s)]);
        }
    }
}

proof fn lemma_seq_insert_multiset(s: Seq<(Seq<char>, RawVal)>, p: int, e: (Seq<char>, RawVal))
    requires
        0 <= p <= s.len(),
    ensures
        s.insert(p, e).to_multiset() == s.to_multiset().insert(e),
{
    broadcast use vstd::seq_lib::group_to_multiset_ensures;
    broadcast use vstd::multiset::group_multiset_axioms;
    broadcast use vstd::multiset::group_multiset_properties;

    let t = s.insert(p, e);
    assert(t.remove(p) =~= s);
    assert(t[p] == e);
    assert(t.remove(p).to_multiset() =~= t.to_multiset().remove(t[p]));
    assert(t.contains(e));
    assert(t.to_multiset().count(e) > 0);
    assert(t.to_multiset() =~= s.to_multiset().insert(e));
}

/// Entries in non-decreasing key order.
pub open spec fn sorted_by_keys(s: Seq<(Seq<char>, RawVal)>) -> bool {
    forall|i: int, j: int|
        #![trigger s[i], s[j]]
        0 <= i < j < s.len() ==> !lex_lt(s[j].0, s[i].0)
}

proof fn lemma_insert_sorted_sorted(e: (Seq<char>, RawVal), s: Seq<(Seq<char>, RawVal)>)
    requires
        sorted_by_keys(s),
    ensures
        sorted_by_keys(insert_sorted(e, s)),
{
    lemma_insert_sorted_shape(e, s);
    let p = ins_pos(e, s);
    let t = insert_sorted(e, s);
    assert forall|i: int, j: int| 0 <= i < j < t.len() implies !lex_lt(t[j].0, t[i].0) by {
        if i < p && j == p {
            assert(t[i] == s[i]);
            assert(t[j] == e);
            assert(lex_lt(s[i].0, e.0));
            if lex_lt(e.0, s[i].0) {
                lemma_lex_trans(s[i].0, e.0, s[i].0);
                lemma_lex_irrefl(s[i].0);
            }
        } else if i < p && j > p {
            assert(t[i] == s[i]);
            assert(t[j] == s[j - 1]);
        } else if i == p && j > p {
            assert(t[i] == e);
            assert(t[j] == s[j - 1]);
            assert(!lex_lt(s[p].0, e.0));
            assert(j - 1 >= p);
            if lex_lt(s[j - 1].0, e.0) {
                if p < j - 1 {
                    assert(!lex_lt(s[j - 1].0, s[p].0));
                    if lex_lt(e.0, s[p].0) {
                        lemma_lex_trans(s[j - 1].0, e.0, s[p].0);
                    } else {
                        lemma_lex_connex(s[p].0, e.0);
                    }
                    lemma_lex_irrefl(s[j - 1].0);
                }
            }
        } else if i > p && j > p {
            assert(t[i] == s[i - 1]);
            assert(t[j] == s[j - 1]);
        } else {
            assert(i < p && j < p);
            assert(t[i] == s[i]);
            assert(t[j] == s[j]);
        }
    }
}

pub proof fn lemma_sort_entries_props(s: Seq<(Seq<char>, RawVal)>)
    ensures
        sort_entries(s).to_multiset() == s.to_multiset(),
        sorted_by_keys(sort_entries(s)),
        sort_entries(s).len() == s.len(),
    decreases s,
{
    broadcast use vstd::seq_lib::group_to_multiset_ensures;
    broadcast use vstd::multiset::group_multiset_axioms;

    if s.len() == 0 {
        assert(sort_entries(s).to_multiset() =~= s.to_multiset());
    } else {
        lemma_sort_entries_props(s.drop_last());
        let rec = sort_entries(s.drop_last());
        lemma_insert_sorted_shape(s.last(), rec);
        lemma_insert_sorted_sorted(s.last(), rec);
        lemma_seq_insert_multiset(rec, ins_pos(s.last(), rec), s.last());
        assert(s =~= s.drop_last().push(s.last()));
        assert(s.drop_last().push(s.last()).to_multiset() == s.drop_last().to_multiset().insert(
            s.last(),
        ));
    }
}

/// An entry sequence with distinct keys has pairwise-distinct entries,
/// so each occurs exactly once in its multiset.
proof fn lemma_distinct_entries(s: Seq<(Seq<char>, RawVal)>)
    requires
        crate::raw::distinct_keys(s),
    ensures
        forall|x: (Seq<char>, RawVal)| #![trigger s.to_multiset().count(x)]
            s.to_multiset().count(x) <= 1,
        s.no_duplicates(),
{
    broadcast use vstd::seq_lib::group_to_multiset_ensures;
    broadcast use vstd::multiset::group_multiset_axioms;

    assert forall|i: int, j: int|
        0 <= i < s.len() && 0 <= j < s.len() && i != j implies s[i] != s[j] by {
        if i < j {
            assert(s[i].0 != s[j].0);
        } else {
            assert(s[j].0 != s[i].0);
        }
    }
    assert(s.no_duplicates());
    s.lemma_multiset_has_no_duplicates();
    assert forall|x: (Seq<char>, RawVal)| s.to_multiset().count(x) <= 1 by {
        if s.to_multiset().count(x) > 0 {
            assert(s.to_multiset().contains(x));
        }
    }
}

/// Two key-sorted entry sequences with distinct keys and the same
/// entries are the same sequence.
proof fn lemma_sorted_unique(s1: Seq<(Seq<char>, RawVal)>, s2: Seq<(Seq<char>, RawVal)>)
    requires
        sorted_by_keys(s1),
        sorted_by_keys(s2),
        crate::raw::distinct_keys(s1),
        crate::raw::distinct_keys(s2),
        s1.to_multiset() == s2.to_multiset(),
    ensures
        s1 == s2,
    decreases s1.len(),
{
    broadcast use vstd::seq_lib::group_to_multiset_ensures;
    broadcast use vstd::multiset::group_multiset_axioms;

    assert(s1.len() == s1.to_multiset().len());
    assert(s2.len() == s2.to_multiset().len());
    if s1.len() == 0 {
        assert(s1 =~= s2);
    } else {
        assert(s2.len() == s1.len());
        assert(s1.contains(s1[0]));
        assert(s1.to_multiset().count(s1[0]) > 0);
        assert(s2.to_multiset().count(s1[0]) > 0);
        assert(s2.contains(s1[0]));
        let i = choose|i: int| 0 <= i < s2.len() && s2[i] == s1[0];
        assert(s2.contains(s2[0]));
        assert(s2.to_multiset().count(s2[0]) > 0);
        assert(s1.to_multiset().count(s2[0]) > 0);
        assert(s1.contains(s2[0]));
        let j = choose|j: int| 0 <= j < s1.len() && s1[j] == s2[0];
        if i == 0 {
            assert(s1[0] == s2[0]);
        } else if j == 0 {
            assert(s1[0] == s2[0]);
        } else {
            assert(!lex_lt(s2[i].0, s2[0].0));
            assert(!lex_lt(s1[j].0, s1[0].0));
            lemma_lex_connex(s1[0].0, s2[0].0);
            assert(s1[0].0 == s2[0].0);
            assert(s1[j].0 == s1[0].0);
            assert(false);
        }
        assert(s1[0] == s2[0]);
        let t1 = s1.drop_first();
        let t2 = s2.drop_first();
        assert(s1.remove(0) =~= t1);
        assert(s2.remove(0) =~= t2);
        assert(t1.to_multiset() =~= s1.to_multiset().remove(s1[0]));
        assert(t2.to_multiset() =~= s2.to_multiset().remove(s2[0]));
        assert(forall|q: int| #![trigger t1[q]] 0 <= q < t1.len() ==> t1[q] == s1[q + 1]);
        assert(forall|q: int| #![trigger t2[q]] 0 <= q < t2.len() ==> t2[q] == s2[q + 1]);
        lemma_sorted_unique(t1, t2);
        assert forall|q: int| 0 <= q < s1.len() implies s1[q] == s2[q] by {
            if q > 0 {
                assert(t1[q - 1] == s1[q]);
                assert(t2[q - 1] == s2[q]);
            }
        }
        assert(s1 =~= s2);
    }
}

/// Sorting preserves distinct keys: the sorted sequence holds exactly
/// the input's entries, whose keys are pairwise distinct.
pub proof fn lemma_sort_entries_distinct(es: Seq<(Seq<char>, RawVal)>)
    requires
        crate::raw::distinct_keys(es),
    ensures
        crate::raw::distinct_keys(sort_entries(es)),
{
    broadcast use vstd::seq_lib::group_to_multiset_ensures;
    broadcast use vstd::multiset::group_multiset_axioms;

    lemma_sort_entries_props(es);
    let t = sort_entries(es);
    assert forall|i: int, j: int|
        #![trigger t[i], t[j]]
        0 <= i < j < t.len() implies t[i].0 != t[j].0 by {
        assert(t.contains(t[i]));
        assert(t.to_multiset().count(t[i]) > 0);
        assert(es.to_multiset().count(t[i]) > 0);
        assert(es.contains(t[i]));
        assert(t.contains(t[j]));
        assert(t.to_multiset().count(t[j]) > 0);
        assert(es.to_multiset().count(t[j]) > 0);
        assert(es.contains(t[j]));
        if t[i] == t[j] {
            lemma_distinct_entries(es);
            assert(t.remove(i).to_multiset() =~= t.to_multiset().remove(t[i]));
            assert(t.remove(i)[j - 1] == t[j]);
            assert(t.remove(i).contains(t[j]));
            assert(t.remove(i).to_multiset().count(t[j]) > 0);
            assert(t.to_multiset().count(t[i]) >= 2);
            assert(es.to_multiset().count(t[i]) >= 2);
            assert(false);
        } else {
            let a = choose|a: int| 0 <= a < es.len() && es[a] == t[i];
            let b = choose|b: int| 0 <= b < es.len() && es[b] == t[j];
            assert(a != b);
            if t[i].0 == t[j].0 {
                assert(es[a].0 == es[b].0);
                assert(false);
            }
        }
    }
}

/// Field-order stability: two arrangements of the same entries of one
/// mapping level have the same canonical (key-sorted) order. The
/// schema's field order and the emitted artifact are built from that
/// canonical order alone.
pub proof fn lemma_field_order_stable(
    es1: Seq<(Seq<char>, RawVal)>,
    es2: Seq<(Seq<char>, RawVal)>,
)
    requires
        crate::raw::distinct_keys(es1),
        crate::raw::distinct_keys(es2),
        es1.to_multiset() == es2.to_multiset(),
    ensures
        sort_entries(es1) == sort_entries(es2),
{
    lemma_sort_entries_props(es1);
    lemma_sort_entries_props(es2);
    lemma_sort_entries_distinct(es1);
    lemma_sort_entries_distinct(es2);
    lemma_sorted_unique(sort_entries(es1), sort_entries(es2));
}

} // verus!
