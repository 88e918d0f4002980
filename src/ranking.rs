use vstd::prelude::*;

verus! {

/// Sizes in descending order.
pub open spec fn sorted_desc(s: Seq<(usize, u64)>) -> bool {
    forall|a: int, b: int| 0 <= a < b < s.len() ==> s[a].1 >= s[b].1
}

/// Places `x` after every entry of `s` whose size is at least `x`'s,
/// scanning from the back.
pub open spec fn insert_desc(s: Seq<(usize, u64)>, x: (usize, u64)) -> Seq<(usize, u64)>
    decreases s.len(),
{
    if s.len() == 0 {
        seq![x]
    } else if s.last().1 >= x.1 {
        s.push(x)
    } else {
        insert_desc(s.drop_last(), x).push(s.last())
    }
}

/// The stable sort of `s` by descending size: entries of equal size keep
/// their relative order.
pub open spec fn sort_desc(s: Seq<(usize, u64)>) -> Seq<(usize, u64)>
    decreases s.len(),
{
    if s.len() == 0 {
        s
    } else {
        insert_desc(sort_desc(s.drop_last()), s.last())
    }
}

/// The first `width` entries of the stable descending sort of `s`.
pub open spec fn top_n(s: Seq<(usize, u64)>, width: int) -> Seq<(usize, u64)> {
    let sorted = sort_desc(s);
    if width < sorted.len() {
        sorted.take(width)
    } else {
        sorted
    }
}

pub proof fn lemma_insert_desc(s: Seq<(usize, u64)>, x: (usize, u64))
    ensures
        insert_desc(s, x).len() == s.len() + 1,
        forall|y: (usize, u64)| #[trigger] insert_desc(s, x).contains(y) <==> (s.contains(y) || y == x),
        sorted_desc(s) ==> sorted_desc(insert_desc(s, x)),
    decreases s.len(),
{
    if s.len() == 0 {
        assert(insert_desc(s, x) =~= seq![x]);
        assert(forall|y: (usize, u64)| seq![x].contains(y) <==> y == x) by {
            assert(seq![x][0] == x);
        }
    } else if s.last().1 >= x.1 {
        let r = s.push(x);
        assert(forall|y: (usize, u64)| r.contains(y) <==> (s.contains(y) || y == x)) by {
            assert forall|y: (usize, u64)| r.contains(y) implies (s.contains(y) || y == x) by {
                let j = choose|j: int| 0 <= j < r.len() && r[j] == y;
                if j < s.len() {
                    assert(s[j] == y);
                }
            }
            assert forall|y: (usize, u64)| (s.contains(y) || y == x) implies r.contains(y) by {
                if y == x {
                    assert(r[s.len() as int] == x);
                } else {
                    let j = choose|j: int| 0 <= j < s.len() && s[j] == y;
                    assert(r[j] == y);
                }
            }
        }
    } else {
        let d = s.drop_last();
        let l = s.last();
        lemma_insert_desc(d, x);
        let i = insert_desc(d, x);
        let r = i.push(l);
        assert(r == insert_desc(s, x));
        assert forall|y: (usize, u64)| r.contains(y) <==> (s.contains(y) || y == x) by {
            if r.contains(y) {
                let j = choose|j: int| 0 <= j < r.len() && r[j] == y;
                if j < i.len() {
                    assert(i[j] == y);
                    assert(i.contains(y));
                    if d.contains(y) {
                        let m = choose|m: int| 0 <= m < d.len() && d[m] == y;
                        assert(s[m] == y);
                    }
                } else {
                    assert(s[s.len() - 1] == y);
                }
            }
            if s.contains(y) {
                let j = choose|j: int| 0 <= j < s.len() && s[j] == y;
                if j < d.len() {
                    assert(d[j] == y);
                    assert(i.contains(y));
                    let m = choose|m: int| 0 <= m < i.len() && i[m] == y;
                    assert(r[m] == y);
                } else {
                    assert(r[i.len() as int] == y);
                }
            }
            if y == x {
                assert(i.contains(x));
                let m = choose|m: int| 0 <= m < i.len() && i[m] == x;
                assert(r[m] == x);
            }
        }
        if sorted_desc(s) {
            assert(sorted_desc(d));
            assert forall|a: int, b: int| 0 <= a < b < r.len() implies r[a].1 >= r[b].1 by {
                if b == r.len() - 1 {
                    assert(i.contains(i[a]));
                    if d.contains(i[a]) {
                        let m = choose|m: int| 0 <= m < d.len() && d[m] == i[a];
                        assert(s[m] == d[m]);
                    }
                } else {
                    assert(r[a] == i[a] && r[b] == i[b]);
                }
            }
        }
    }
}

/// The stable sort keeps the entries and orders them by descending size.
pub proof fn lemma_sort_desc(s: Seq<(usize, u64)>)
    ensures
        sort_desc(s).len() == s.len(),
        forall|y: (usize, u64)| #[trigger] sort_desc(s).contains(y) <==> s.contains(y),
        sorted_desc(sort_desc(s)),
    decreases s.len(),
{
    if s.len() > 0 {
        let d = s.drop_last();
        lemma_sort_desc(d);
        lemma_insert_desc(sort_desc(d), s.last());
        assert forall|y: (usize, u64)| sort_desc(s).contains(y) <==> s.contains(y) by {
            if s.contains(y) {
                let j = choose|j: int| 0 <= j < s.len() && s[j] == y;
                if j < d.len() {
                    assert(d[j] == y);
                }
            }
            if d.contains(y) {
                let j = choose|j: int| 0 <= j < d.len() && d[j] == y;
                assert(s[j] == y);
            }
        }
    }
}

/// Inserting an entry that is not yet present keeps the entries distinct.
pub proof fn lemma_insert_desc_distinct(s: Seq<(usize, u64)>, x: (usize, u64))
    requires
        s.no_duplicates(),
        !s.contains(x),
    ensures
        insert_desc(s, x).no_duplicates(),
    decreases s.len(),
{
    lemma_insert_desc(s, x);
    if s.len() == 0 {
    } else if s.last().1 >= x.1 {
        let r = s.push(x);
        assert forall|a: int, b: int| 0 <= a < r.len() && 0 <= b < r.len() && a != b implies r[a] != r[b] by {
            if a < s.len() && b < s.len() {
            } else if a < s.len() {
                assert(s.contains(s[a]));
            } else {
                assert(s.contains(s[b]));
            }
        }
    } else {
        let d = s.drop_last();
        let l = s.last();
        assert(d.no_duplicates());
        assert(!d.contains(x)) by {
            if d.contains(x) {
                let j = choose|j: int| 0 <= j < d.len() && d[j] == x;
                assert(s[j] == x);
            }
        }
        lemma_insert_desc_distinct(d, x);
        lemma_insert_desc(d, x);
        let i = insert_desc(d, x);
        let r = i.push(l);
        assert(!i.contains(l)) by {
            assert(s[s.len() - 1] == l);
            if d.contains(l) {
                let j = choose|j: int| 0 <= j < d.len() && d[j] == l;
                assert(s[j] == l);
            }
            assert(s.contains(l));
        }
        assert forall|a: int, b: int| 0 <= a < r.len() && 0 <= b < r.len() && a != b implies r[a] != r[b] by {
            if a < i.len() && b < i.len() {
            } else if a < i.len() {
                assert(i.contains(i[a]));
            } else {
                assert(i.contains(i[b]));
            }
        }
    }
}

/// The stable sort of distinct entries holds distinct entries.
pub proof fn lemma_sort_desc_distinct(s: Seq<(usize, u64)>)
    requires
        s.no_duplicates(),
    ensures
        sort_desc(s).no_duplicates(),
    decreases s.len(),
{
    if s.len() > 0 {
        let d = s.drop_last();
        assert(d.no_duplicates());
        lemma_sort_desc_distinct(d);
        lemma_sort_desc(d);
        assert(!sort_desc(d).contains(s.last())) by {
            if d.contains(s.last()) {
                let j = choose|j: int| 0 <= j < d.len() && d[j] == s.last();
                assert(s[j] == s[s.len() - 1]);
            }
        }
        lemma_insert_desc_distinct(sort_desc(d), s.last());
    }
}

} // verus!
