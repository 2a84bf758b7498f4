use vstd::prelude::*;
use crate::item::{NewsItem, Timestamp, opt_text};

verus! {

/// Date order: an absent date comes before every present one; present dates
/// compare by instant.
pub open spec fn date_le(a: Option<Timestamp>, b: Option<Timestamp>) -> bool {
    match (a, b) {
        (None, _) => true,
        (Some(_), None) => false,
        (Some(x), Some(y)) => x.secs < y.secs || (x.secs == y.secs && x.nanos <= y.nanos),
    }
}

/// The identity of an item: its title, description and raw publish-date text.
pub open spec fn identity(it: NewsItem) -> (Option<Seq<char>>, Option<Seq<char>>, Option<Seq<char>>) {
    (opt_text(it.title), opt_text(it.description), opt_text(it.raw_date))
}

pub open spec fn has_identity(
    s: Seq<NewsItem>,
    k: (Option<Seq<char>>, Option<Seq<char>>, Option<Seq<char>>),
) -> bool {
    exists|i: int| 0 <= i < s.len() && #[trigger] identity(s[i]) == k
}

/// Oldest first: no item is dated after an item that follows it.
pub open spec fn date_sorted(s: Seq<NewsItem>) -> bool {
    forall|i: int, j: int|
        0 <= i < j < s.len() ==> date_le(#[trigger] s[i].publish_date, #[trigger] s[j].publish_date)
}

/// No two items share an identity.
pub open spec fn distinct_identities(s: Seq<NewsItem>) -> bool {
    forall|i: int, j: int|
        0 <= i < j < s.len() ==> identity(#[trigger] s[i]) != identity(#[trigger] s[j])
}

/// `x` inserted into `s` after the trailing run of items dated after it, so
/// that it follows every item of its own date already there.
pub open spec fn insert_by_date(s: Seq<NewsItem>, x: NewsItem) -> Seq<NewsItem>
    decreases s.len(),
{
    if s.len() == 0 {
        seq![x]
    } else if date_le(s.last().publish_date, x.publish_date) {
        s.push(x)
    } else {
        insert_by_date(s.drop_last(), x).push(s.last())
    }
}

/// Where `insert_by_date` puts `x`.
pub open spec fn insertion_index(s: Seq<NewsItem>, x: NewsItem) -> int
    decreases s.len(),
{
    if s.len() == 0 {
        0
    } else if date_le(s.last().publish_date, x.publish_date) {
        s.len() as int
    } else {
        insertion_index(s.drop_last(), x)
    }
}

/// One item offered to the store: dropped when an item of its identity is
/// already there (the first one inserted wins), else inserted by date.
pub open spec fn merge_step(st: Seq<NewsItem>, x: NewsItem) -> Seq<NewsItem> {
    if has_identity(st, identity(x)) {
        st
    } else {
        insert_by_date(st, x)
    }
}

/// The items of `s`, offered in order to the store `st`.
pub open spec fn merge_into(st: Seq<NewsItem>, s: Seq<NewsItem>) -> Seq<NewsItem>
    decreases s.len(),
{
    if s.len() == 0 {
        st
    } else {
        merge_step(merge_into(st, s.drop_last()), s.last())
    }
}

/// The store built from the items of `s` in order.
pub open spec fn merged(s: Seq<NewsItem>) -> Seq<NewsItem> {
    merge_into(Seq::empty(), s)
}

proof fn lemma_insert_shape(s: Seq<NewsItem>, x: NewsItem)
    ensures
        0 <= insertion_index(s, x) <= s.len(),
        insert_by_date(s, x) == s.insert(insertion_index(s, x), x),
        insertion_index(s, x) > 0 ==> date_le(
            s[insertion_index(s, x) - 1].publish_date,
            x.publish_date,
        ),
        insertion_index(s, x) < s.len() ==> !date_le(
            s[insertion_index(s, x)].publish_date,
            x.publish_date,
        ),
    decreases s.len(),
{
    if s.len() == 0 {
        assert(s.insert(0, x) =~= seq![x]);
    } else if date_le(s.last().publish_date, x.publish_date) {
        assert(s.insert(s.len() as int, x) =~= s.push(x));
    } else {
        let d = s.drop_last();
        lemma_insert_shape(d, x);
        let j = insertion_index(d, x);
        assert(d.insert(j, x).push(s.last()) =~= s.insert(j, x));
    }
}

proof fn lemma_insert_keeps(st: Seq<NewsItem>, x: NewsItem)
    requires
        date_sorted(st),
        distinct_identities(st),
        !has_identity(st, identity(x)),
    ensures
        date_sorted(insert_by_date(st, x)),
        distinct_identities(insert_by_date(st, x)),
        forall|k| has_identity(insert_by_date(st, x), k) <==> (has_identity(st, k) || k == identity(x)),
        forall|i: int|
            0 <= i < insert_by_date(st, x).len() ==> (st.contains(#[trigger] insert_by_date(st, x)[i])
                || insert_by_date(st, x)[i] == x),
{
    lemma_insert_shape(st, x);
    let j = insertion_index(st, x);
    let r = insert_by_date(st, x);
    assert(r.len() == st.len() + 1);
    assert forall|a: int| 0 <= a < r.len() implies (a < j ==> r[a] == st[a]) && (a == j ==> r[a] == x)
        && (a > j ==> r[a] == st[a - 1]) by {}
    assert forall|a: int, b: int| 0 <= a < b < r.len() implies date_le(
        #[trigger] r[a].publish_date,
        #[trigger] r[b].publish_date,
    ) by {
        if b < j {
        } else if b == j {
            assert(date_le(st[a].publish_date, st[j - 1].publish_date) || a == j - 1);
        } else if a == j {
            assert(date_le(st[j].publish_date, st[b - 1].publish_date) || b - 1 == j);
        } else if a > j {
        } else {
            assert(date_le(st[a].publish_date, st[j - 1].publish_date) || a == j - 1);
            assert(date_le(st[j].publish_date, st[b - 1].publish_date) || b - 1 == j);
        }
    }
    assert forall|a: int, b: int| 0 <= a < b < r.len() implies identity(#[trigger] r[a]) != identity(
        #[trigger] r[b],
    ) by {
        if a == j {
            assert(identity(st[b - 1]) != identity(x));
        } else if b == j {
            assert(identity(st[a]) != identity(x));
        }
    }
    assert forall|k| has_identity(r, k) <==> (has_identity(st, k) || k == identity(x)) by {
        if has_identity(r, k) {
            let a = choose|a: int| 0 <= a < r.len() && #[trigger] identity(r[a]) == k;
            if a < j {
                assert(identity(st[a]) == k);
            } else if a > j {
                assert(identity(st[a - 1]) == k);
            }
        }
        if has_identity(st, k) {
            let a = choose|a: int| 0 <= a < st.len() && #[trigger] identity(st[a]) == k;
            if a < j {
                assert(identity(r[a]) == k);
            } else {
                assert(identity(r[a + 1]) == k);
            }
        }
        if k == identity(x) {
            assert(identity(r[j]) == k);
        }
    }
    assert forall|i: int| 0 <= i < r.len() implies (st.contains(#[trigger] r[i]) || r[i] == x) by {
        if i < j {
            assert(st[i] == r[i]);
        } else if i > j {
            assert(st[i - 1] == r[i]);
        }
    }
}

/// Offering items to a sorted store without shared identities keeps it so;
/// afterwards it holds every identity it held or was offered, and only items
/// that it held or was offered.
pub proof fn lemma_merge_into(st: Seq<NewsItem>, s: Seq<NewsItem>)
    requires
        date_sorted(st),
        distinct_identities(st),
    ensures
        date_sorted(merge_into(st, s)),
        distinct_identities(merge_into(st, s)),
        forall|k| has_identity(st, k) ==> has_identity(merge_into(st, s), k),
        forall|i: int| 0 <= i < s.len() ==> has_identity(merge_into(st, s), identity(#[trigger] s[i])),
        forall|i: int|
            0 <= i < merge_into(st, s).len() ==> (st.contains(#[trigger] merge_into(st, s)[i])
                || s.contains(merge_into(st, s)[i])),
    decreases s.len(),
{
    if s.len() > 0 {
        let d = s.drop_last();
        let x = s.last();
        lemma_merge_into(st, d);
        let m = merge_into(st, d);
        let r = merge_into(st, s);
        if !has_identity(m, identity(x)) {
            lemma_insert_keeps(m, x);
        }
        assert forall|i: int| 0 <= i < s.len() implies has_identity(r, identity(#[trigger] s[i])) by {
            if i < s.len() - 1 {
                assert(identity(d[i]) == identity(s[i]));
            }
        }
        assert forall|i: int| 0 <= i < r.len() implies (st.contains(#[trigger] r[i]) || s.contains(r[i])) by {
            if !st.contains(r[i]) && r[i] != x {
                let y = r[i];
                if !has_identity(m, identity(x)) {
                    assert(m.contains(y));
                    let a = choose|a: int| 0 <= a < m.len() && m[a] == y;
                    assert(st.contains(m[a]) || d.contains(m[a]));
                }
                assert(d.contains(y));
                let b = choose|b: int| 0 <= b < d.len() && d[b] == y;
                assert(s[b] == y);
            } else if r[i] == x {
                assert(s[s.len() - 1] == x);
            }
        }
    }
}

proof fn lemma_merge_concat(st: Seq<NewsItem>, a: Seq<NewsItem>, b: Seq<NewsItem>)
    ensures
        merge_into(st, a + b) == merge_into(merge_into(st, a), b),
    decreases b.len(),
{
    if b.len() == 0 {
        assert(a + b =~= a);
    } else {
        lemma_merge_concat(st, a, b.drop_last());
        assert((a + b).drop_last() =~= a + b.drop_last());
        assert((a + b).last() == b.last());
    }
}

/// Offering a store items whose identities it already holds changes nothing.
proof fn lemma_merge_absorbs(st: Seq<NewsItem>, s: Seq<NewsItem>)
    requires
        forall|i: int| 0 <= i < s.len() ==> has_identity(st, identity(#[trigger] s[i])),
    ensures
        merge_into(st, s) == st,
    decreases s.len(),
{
    if s.len() > 0 {
        assert forall|i: int| 0 <= i < s.drop_last().len() implies has_identity(
            st,
            identity(#[trigger] s.drop_last()[i]),
        ) by {
            assert(s.drop_last()[i] == s[i]);
        }
        lemma_merge_absorbs(st, s.drop_last());
        assert(has_identity(st, identity(s[s.len() - 1])));
    }
}

/// Rebuilding a sorted store without shared identities gives it back.
proof fn lemma_merge_rebuilds(q: Seq<NewsItem>)
    requires
        date_sorted(q),
        distinct_identities(q),
    ensures
        merged(q) == q,
    decreases q.len(),
{
    if q.len() > 0 {
        let d = q.drop_last();
        let x = q.last();
        assert(date_sorted(d));
        assert(distinct_identities(d));
        lemma_merge_rebuilds(d);
        assert(!has_identity(d, identity(x))) by {
            if has_identity(d, identity(x)) {
                let a = choose|a: int| 0 <= a < d.len() && #[trigger] identity(d[a]) == identity(x);
                assert(identity(q[a]) != identity(q[q.len() - 1]));
            }
        }
        if d.len() > 0 {
            assert(date_le(q[d.len() - 1].publish_date, q[q.len() - 1].publish_date));
        }
        assert(d.push(x) =~= q);
    }
}

/// Merging keeps exactly one item of each identity: for every item offered,
/// whether it was stored before or fetched now, the merged store holds one
/// item of its identity and no two stored items share an identity.
pub proof fn lemma_duplicates_collapse(existing: Seq<NewsItem>, fresh: Seq<NewsItem>)
    ensures
        distinct_identities(merged(existing + fresh)),
        forall|i: int|
            0 <= i < (existing + fresh).len() ==> has_identity(
                merged(existing + fresh),
                identity(#[trigger] (existing + fresh)[i]),
            ),
{
    lemma_merge_into(Seq::empty(), existing + fresh);
}

/// Running a merge again with the same fresh items leaves the store as it
/// was, so its item count is unchanged.
pub proof fn lemma_merge_idempotent(existing: Seq<NewsItem>, fresh: Seq<NewsItem>)
    ensures
        merged(merged(existing + fresh) + fresh) == merged(existing + fresh),
        merged(merged(existing + fresh) + fresh).len() == merged(existing + fresh).len(),
{
    let once = merged(existing + fresh);
    lemma_merge_into(Seq::empty(), existing + fresh);
    lemma_merge_concat(Seq::empty(), once, fresh);
    lemma_merge_rebuilds(once);
    assert forall|i: int| 0 <= i < fresh.len() implies has_identity(once, identity(#[trigger] fresh[i])) by {
        assert((existing + fresh)[existing.len() + i] == fresh[i]);
    }
    lemma_merge_absorbs(once, fresh);
}

/// The list handed to callers runs newest first: an item dated after another
/// comes before it, and undated items come after all dated ones.
pub proof fn lemma_newest_first_order(existing: Seq<NewsItem>, fresh: Seq<NewsItem>)
    ensures
        forall|i: int, j: int|
            0 <= i < j < merged(existing + fresh).len() ==> date_le(
                #[trigger] merged(existing + fresh).reverse()[j].publish_date,
                #[trigger] merged(existing + fresh).reverse()[i].publish_date,
            ),
{
    let m = merged(existing + fresh);
    lemma_merge_into(Seq::empty(), existing + fresh);
    assert forall|i: int, j: int| 0 <= i < j < m.len() implies date_le(
        #[trigger] m.reverse()[j].publish_date,
        #[trigger] m.reverse()[i].publish_date,
    ) by {
        assert(m.reverse()[j] == m[m.len() - 1 - j]);
        assert(m.reverse()[i] == m[m.len() - 1 - i]);
    }
}

fn dates_in_order(a: &Option<Timestamp>, b: &Option<Timestamp>) -> (r: bool)
    ensures
        r == date_le(*a, *b),
{
    match (a, b) {
        (None, _) => true,
        (Some(_), None) => false,
        (Some(x), Some(y)) => x.secs < y.secs || (x.secs == y.secs && x.nanos <= y.nanos),
    }
}

fn same_text(a: &Option<String>, b: &Option<String>) -> (r: bool)
    ensures
        r == (opt_text(*a) == opt_text(*b)),
{
    match (a, b) {
        (None, None) => true,
        (Some(x), Some(y)) => x.eq(y),
        _ => false,
    }
}

/// Whether `a` and `b` are the same item: equal title, description and raw
/// publish-date text. The digest takes no part in this.
pub fn same_identity(a: &NewsItem, b: &NewsItem) -> (r: bool)
    ensures
        r == (identity(*a) == identity(*b)),
{
    same_text(&a.title, &b.title) && same_text(&a.description, &b.description) && same_text(
        &a.raw_date,
        &b.raw_date,
    )
}

fn holds_identity(st: &Vec<NewsItem>, x: &NewsItem) -> (r: bool)
    ensures
        r == has_identity(st@, identity(*x)),
{
    let mut i: usize = 0;
    while i < st.len()
        invariant
            i <= st@.len(),
            forall|k: int| 0 <= k < i ==> identity(#[trigger] st@[k]) != identity(*x),
        decreases st@.len() - i,
    {
        if same_identity(&st[i], x) {
            return true;
        }
        i = i + 1;
    }
    false
}

fn insert_sorted(v: &mut Vec<NewsItem>, x: NewsItem)
    ensures
        final(v)@ == insert_by_date(old(v)@, x),
{
    let ghost s = v@;
    let mut j: usize = v.len();
    assert(s.subrange(0, s.len() as int) =~= s);
    while j > 0
        invariant
            v@ == s,
            j <= s.len(),
            insertion_index(s, x) == insertion_index(s.subrange(0, j as int), x),
        ensures
            j <= s.len(),
            insertion_index(s, x) == insertion_index(s.subrange(0, j as int), x),
            j == 0 || date_le(s[j - 1].publish_date, x.publish_date),
        decreases j,
    {
        if dates_in_order(&v[j - 1].publish_date, &x.publish_date) {
            break;
        }
        assert(s.subrange(0, j as int).drop_last() =~= s.subrange(0, j - 1));
        j = j - 1;
    }
    proof {
        lemma_insert_shape(s, x);
        let p = s.subrange(0, j as int);
        if j > 0 {
            assert(p.last() == s[j - 1]);
        }
    }
    v.insert(j, x);
}

/// The store after a merge: the previously stored items, then the fresh ones,
/// each offered in order; an item is dropped when one of its identity is
/// already held (the first one wins), else it goes in after every held item
/// not dated after it. The result runs oldest first.
pub fn merge_items(existing: Vec<NewsItem>, fresh: Vec<NewsItem>) -> (r: Vec<NewsItem>)
    ensures
        r@ == merged(existing@ + fresh@),
        (forall|i: int| 0 <= i < (existing@ + fresh@).len() ==> (#[trigger] (existing@ + fresh@)[i]).wf())
            ==> forall|i: int| 0 <= i < r@.len() ==> (#[trigger] r@[i]).wf(),
{
    let mut all = existing;
    let mut more = fresh;
    all.append(&mut more);
    let ghost orig = all@;
    let mut st: Vec<NewsItem> = Vec::new();
    while all.len() > 0
        invariant
            all@.len() <= orig.len(),
            all@ == orig.subrange(orig.len() - all@.len(), orig.len() as int),
            st@ == merged(orig.subrange(0, orig.len() - all@.len())),
        decreases all@.len(),
    {
        let ghost i = orig.len() - all@.len();
        let x = all.remove(0);
        assert(x == orig[i]);
        assert(orig.subrange(0, i + 1).drop_last() =~= orig.subrange(0, i));
        if !holds_identity(&st, &x) {
            insert_sorted(&mut st, x);
        }
        assert(all@ =~= orig.subrange(orig.len() - all@.len(), orig.len() as int));
    }
    assert(orig.subrange(0, orig.len() as int) =~= orig);
    proof {
        lemma_merge_into(Seq::empty(), orig);
        if forall|i: int| 0 <= i < orig.len() ==> (#[trigger] orig[i]).wf() {
            assert forall|i: int| 0 <= i < st@.len() implies (#[trigger] st@[i]).wf() by {
                assert(Seq::<NewsItem>::empty().contains(st@[i]) || orig.contains(st@[i]));
            }
        }
    }
    st
}

/// The items in reverse order: a store that runs oldest first comes out
/// newest first.
pub fn newest_first(items: Vec<NewsItem>) -> (r: Vec<NewsItem>)
    ensures
        r@ == items@.reverse(),
{
    let mut rest = items;
    let ghost orig = rest@;
    let mut r: Vec<NewsItem> = Vec::new();
    while rest.len() > 0
        invariant
            rest@ == orig.subrange(0, rest@.len() as int),
            r@ == orig.subrange(rest@.len() as int, orig.len() as int).reverse(),
            rest@.len() <= orig.len(),
        decreases rest@.len(),
    {
        let ghost n = rest@.len();
        let x = rest.pop().unwrap();
        r.push(x);
        assert(r@ =~= orig.subrange(n - 1, orig.len() as int).reverse());
        assert(rest@ =~= orig.subrange(0, rest@.len() as int));
    }
    assert(r@ =~= orig.reverse());
    r
}

} // verus!
