//! Ordering of directory entries for listings: directories come first,
//! and within each group names run in lexicographic order.
use vstd::prelude::*;
use vstd::string::*;
use vstd::seq_lib::lemma_multiset_commutative;
use vstd::multiset::Multiset;

verus! {

pub struct FileEntry {
    pub name: String,
    pub is_dir: bool,
    pub size: Option<u64>,
}

/// Lexicographic order on character sequences, by code point.
pub open spec fn spec_str_le(a: Seq<char>, b: Seq<char>) -> bool
    decreases a.len(),
{
    if a.len() == 0 {
        true
    } else if b.len() == 0 {
        false
    } else if a[0] != b[0] {
        a[0] < b[0]
    } else {
        spec_str_le(a.skip(1), b.skip(1))
    }
}

/// The listing order: directories before files, names deciding within
/// each group.
pub open spec fn spec_entry_le(a: FileEntry, b: FileEntry) -> bool {
    if a.is_dir != b.is_dir {
        a.is_dir
    } else {
        spec_str_le(a.name@, b.name@)
    }
}

pub open spec fn spec_entries_sorted(s: Seq<FileEntry>) -> bool {
    forall|i: int, j: int| 0 <= i < j < s.len() ==> spec_entry_le(#[trigger] s[i], #[trigger] s[j])
}

proof fn lemma_str_le_total(a: Seq<char>, b: Seq<char>)
    ensures
        spec_str_le(a, b) || spec_str_le(b, a),
    decreases a.len(),
{
    if a.len() > 0 && b.len() > 0 && a[0] == b[0] {
        lemma_str_le_total(a.skip(1), b.skip(1));
    }
}

proof fn lemma_str_le_trans(a: Seq<char>, b: Seq<char>, c: Seq<char>)
    requires
        spec_str_le(a, b),
        spec_str_le(b, c),
    ensures
        spec_str_le(a, c),
    decreases a.len(),
{
    if a.len() > 0 && b.len() > 0 && c.len() > 0 && a[0] == b[0] && b[0] == c[0] {
        lemma_str_le_trans(a.skip(1), b.skip(1), c.skip(1));
    }
}

proof fn lemma_entry_le_total(a: FileEntry, b: FileEntry)
    ensures
        spec_entry_le(a, b) || spec_entry_le(b, a),
{
    if a.is_dir == b.is_dir {
        lemma_str_le_total(a.name@, b.name@);
    }
}

proof fn lemma_entry_le_trans(a: FileEntry, b: FileEntry, c: FileEntry)
    requires
        spec_entry_le(a, b),
        spec_entry_le(b, c),
    ensures
        spec_entry_le(a, c),
{
    if a.is_dir == b.is_dir && b.is_dir == c.is_dir {
        lemma_str_le_trans(a.name@, b.name@, c.name@);
    }
}

/// Inserting anywhere adds one occurrence to the multiset.
proof fn lemma_insert_to_multiset<T>(s: Seq<T>, i: int, x: T)
    requires
        0 <= i <= s.len(),
    ensures
        s.insert(i, x).to_multiset() =~= s.to_multiset().insert(x),
{
    let t = s.insert(i, x);
    assert(t =~= s.take(i) + (seq![x] + s.skip(i)));
    lemma_multiset_commutative(s.take(i), seq![x] + s.skip(i));
    lemma_multiset_commutative(seq![x], s.skip(i));
    assert(t.to_multiset() =~= s.take(i).to_multiset().add(
        seq![x].to_multiset().add(s.skip(i).to_multiset()),
    ));
    assert(s =~= s.take(i) + s.skip(i));
    lemma_multiset_commutative(s.take(i), s.skip(i));
    assert(seq![x] =~= Seq::<T>::empty().push(x));
    assert(seq![x].to_multiset() =~= Multiset::<T>::empty().insert(x)) by {
        Seq::<T>::empty().to_multiset_ensures();
    }
}

/// Compares two names lexicographically.
pub fn str_le(a: &str, b: &str) -> (r: bool)
    ensures
        r == spec_str_le(a@, b@),
{
    let la = a.unicode_len();
    let lb = b.unicode_len();
    let mut i: usize = 0;
    proof {
        assert(a@.skip(0) =~= a@);
        assert(b@.skip(0) =~= b@);
    }
    loop
        invariant
            la == a@.len(),
            lb == b@.len(),
            0 <= i <= la,
            0 <= i <= lb,
            spec_str_le(a@, b@) == spec_str_le(a@.skip(i as int), b@.skip(i as int)),
        decreases la - i,
    {
        let ghost ta = a@.skip(i as int);
        let ghost tb = b@.skip(i as int);
        if i >= la {
            return true;
        }
        if i >= lb {
            return false;
        }
        let ca = a.get_char(i);
        let cb = b.get_char(i);
        proof {
            assert(ta[0] == a@[i as int]);
            assert(tb[0] == b@[i as int]);
            assert(ta.skip(1) =~= a@.skip(i + 1));
            assert(tb.skip(1) =~= b@.skip(i + 1));
        }
        if ca != cb {
            return ca < cb;
        }
        i = i + 1;
    }
}

fn entry_le(a: &FileEntry, b: &FileEntry) -> (r: bool)
    ensures
        r == spec_entry_le(*a, *b),
{
    if a.is_dir != b.is_dir {
        a.is_dir
    } else {
        str_le(a.name.as_str(), b.name.as_str())
    }
}

/// Sorts entries for display: directories first, then by name. The
/// result holds exactly the entries given, in listing order.
pub fn sort_entries(entries: Vec<FileEntry>) -> (r: Vec<FileEntry>)
    ensures
        spec_entries_sorted(r@),
        r@.to_multiset() == entries@.to_multiset(),
{
    let ghost orig = entries@;
    let mut rest = entries;
    let mut out: Vec<FileEntry> = Vec::new();
    proof {
        broadcast use vstd::seq_lib::group_to_multiset_ensures;
        broadcast use vstd::multiset::group_multiset_axioms;

        assert(rest@.take(rest@.len() as int) =~= rest@);
        out@.to_multiset_ensures();
        vstd::multiset::lemma_multiset_empty_len(out@.to_multiset());
        assert(out@.to_multiset() =~= Multiset::<FileEntry>::empty());
        assert(out@.to_multiset().add(rest@.to_multiset()) =~= orig.to_multiset());
    }
    while rest.len() > 0
        invariant
            rest@.len() <= orig.len(),
            rest@ == orig.take(rest@.len() as int),
            spec_entries_sorted(out@),
            out@.to_multiset().add(rest@.to_multiset()) == orig.to_multiset(),
        decreases rest@.len(),
    {
        let ghost m = rest@.len() as int;
        let ghost out0 = out@;
        let last = rest.len() - 1;
        let x = rest.remove(last);
        proof {
            broadcast use vstd::seq_lib::group_to_multiset_ensures;

            assert(rest@ =~= orig.take(m - 1));
            assert(orig.take(m).remove(m - 1) =~= orig.take(m - 1));
            assert(orig.take(m).to_multiset().remove(x) =~= orig.take(m - 1).to_multiset());
            assert(orig.take(m).to_multiset().contains(x)) by {
                assert(orig.take(m)[m - 1] == x);
                assert(orig.take(m).contains(x));
            }
            assert(orig.take(m).to_multiset() =~= orig.take(m - 1).to_multiset().insert(x));
        }
        let mut p: usize = 0;
        while p < out.len() && entry_le(&out[p], &x)
            invariant
                out@ == out0,
                spec_entries_sorted(out@),
                0 <= p <= out@.len(),
                forall|k: int| 0 <= k < p ==> spec_entry_le(#[trigger] out@[k], x),
            decreases out@.len() - p,
        {
            p = p + 1;
        }
        proof {
            let t = out@.insert(p as int, x);
            out@.insert_ensures(p as int, x);
            assert forall|i: int, j: int| 0 <= i < j < t.len() implies spec_entry_le(
                #[trigger] t[i],
                #[trigger] t[j],
            ) by {
                if p < out@.len() {
                    lemma_entry_le_total(out@[p as int], x);
                }
                if i == p && j > p {
                    if j - 1 > p {
                        lemma_entry_le_trans(x, out@[p as int], out@[j - 1]);
                    }
                }
            }
            lemma_insert_to_multiset(out@, p as int, x);
        }
        out.insert(p, x);
    }
    proof {
        broadcast use vstd::multiset::group_multiset_axioms;

        assert(rest@ =~= Seq::<FileEntry>::empty());
        assert(rest@.to_multiset() =~= Multiset::<FileEntry>::empty()) by {
            rest@.to_multiset_ensures();
            vstd::multiset::lemma_multiset_empty_len(rest@.to_multiset());
        }
        assert(out@.to_multiset().add(Multiset::<FileEntry>::empty()) =~= out@.to_multiset());
    }
    out
}

} // verus!
