//! The visit aggregator: pure, read-only regrouping of a finished ledger by
//! calendar year or by country name, for presentation.
//!
//! A grouping is an ordered list of `(key, bucket)` pairs: keys strictly
//! ascending in byte order (for UTF-8 names that is also code-point order),
//! each bucket holding its visits in original ledger order.

use vstd::prelude::*;
use vstd::utf8::encode_utf8;

use crate::order::key_lt;
use crate::order::lemma_key_bytes_injective;
use crate::order::lemma_lex_transitive;
use crate::order::lemma_lex_trichotomy;
use crate::order::str_lt;
use crate::visit::Visit;
use crate::visit::VisitView;
use crate::visit::Visits;
use crate::visit::format_year;
use crate::visit::year_label_of;

verus! {

// ---------------------------------------------------------------------------
// The grouping, as a mathematical function of the keyed ledger.
// ---------------------------------------------------------------------------

/// One bucket insertion: append to the bucket of an existing equal key, or
/// place a new singleton bucket at its sorted position.
pub open spec fn insert_visit(
    gs: Seq<(Seq<char>, Seq<VisitView>)>,
    k: Seq<char>,
    v: VisitView,
) -> Seq<(Seq<char>, Seq<VisitView>)>
    decreases gs.len(),
{
    if gs.len() == 0 {
        seq![(k, seq![v])]
    } else {
        let hd = gs[0];
        if hd.0 == k {
            seq![(hd.0, hd.1.push(v))] + gs.drop_first()
        } else if key_lt(k, hd.0) {
            seq![(k, seq![v])] + gs
        } else {
            seq![hd] + insert_visit(gs.drop_first(), k, v)
        }
    }
}

/// The grouping of the first `n` visits under their keys, built in ledger
/// order: a deterministic function of the keyed ledger, so regrouping the
/// same ledger always yields identical output.
pub open spec fn group_spec(
    keys: Seq<Seq<char>>,
    vs: Seq<VisitView>,
    n: int,
) -> Seq<(Seq<char>, Seq<VisitView>)>
    decreases n,
{
    if n <= 0 {
        Seq::empty()
    } else {
        insert_visit(group_spec(keys, vs, n - 1), keys[n - 1], vs[n - 1])
    }
}

/// The key each visit is bucketed under when grouping by country.
pub open spec fn country_keys(vs: Seq<VisitView>) -> Seq<Seq<char>> {
    Seq::new(vs.len(), |i: int| vs[i].country)
}

/// The key each visit is bucketed under when grouping by year.
pub open spec fn year_keys(vs: Seq<VisitView>) -> Seq<Seq<char>> {
    Seq::new(vs.len(), |i: int| year_label_of(vs[i].start.secs as int))
}

/// The mathematical content of an executable grouping.
pub open spec fn groups_view(gs: Seq<(String, Vec<Visit>)>) -> Seq<(Seq<char>, Seq<VisitView>)> {
    Seq::new(gs.len(), |i: int| (gs[i].0@, gs[i].1.deep_view()))
}

// ---------------------------------------------------------------------------
// Aggregation ordering law.
// ---------------------------------------------------------------------------

/// The keys of a grouping are strictly ascending.
pub open spec fn groups_sorted(gs: Seq<(Seq<char>, Seq<VisitView>)>) -> bool {
    forall|i: int, j: int|
        0 <= i < j < gs.len() ==> key_lt((#[trigger] gs[i]).0, (#[trigger] gs[j]).0)
}

proof fn lemma_insert_visit_sorted(gs: Seq<(Seq<char>, Seq<VisitView>)>, k: Seq<char>, v: VisitView)
    requires
        groups_sorted(gs),
    ensures
        groups_sorted(insert_visit(gs, k, v)),
        insert_visit(gs, k, v).len() >= 1,
        forall|i: int|
            0 <= i < insert_visit(gs, k, v).len() ==> ((#[trigger] insert_visit(gs, k, v)[i]).0 == k
                || exists|j: int| 0 <= j < gs.len() && #[trigger] gs[j].0 == insert_visit(gs, k, v)[i].0),
    decreases gs.len(),
{
    let r = insert_visit(gs, k, v);
    if gs.len() == 0 {
    } else {
        let hd = gs[0];
        if hd.0 == k {
        } else if key_lt(k, hd.0) {
            assert forall|i: int, j: int| 0 <= i < j < r.len() implies key_lt(
                (#[trigger] r[i]).0,
                (#[trigger] r[j]).0,
            ) by {
                if i == 0 {
                    if j == 1 {
                    } else {
                        lemma_lex_transitive(encode_utf8(k), encode_utf8(hd.0), encode_utf8(
                            r[j].0,
                        ));
                    }
                }
            }
        } else {
            lemma_lex_trichotomy(encode_utf8(k), encode_utf8(hd.0));
            if encode_utf8(k) == encode_utf8(hd.0) {
                lemma_key_bytes_injective(k, hd.0);
            }
            assert(key_lt(hd.0, k));
            assert(groups_sorted(gs.drop_first())) by {
                assert forall|i: int, j: int| 0 <= i < j < gs.drop_first().len() implies key_lt(
                    (#[trigger] gs.drop_first()[i]).0,
                    (#[trigger] gs.drop_first()[j]).0,
                ) by {
                    assert(gs.drop_first()[i] == gs[i + 1]);
                    assert(gs.drop_first()[j] == gs[j + 1]);
                }
            }
            lemma_insert_visit_sorted(gs.drop_first(), k, v);
            let rr = insert_visit(gs.drop_first(), k, v);
            assert(r == seq![hd] + rr);
            assert forall|i: int, j: int| 0 <= i < j < r.len() implies key_lt(
                (#[trigger] r[i]).0,
                (#[trigger] r[j]).0,
            ) by {
                if i == 0 {
                    assert(r[j] == rr[j - 1]);
                    if rr[j - 1].0 == k {
                    } else {
                        let w = choose|w: int|
                            0 <= w < gs.drop_first().len() && #[trigger] gs.drop_first()[w].0
                                == rr[j - 1].0;
                        assert(gs.drop_first()[w] == gs[w + 1]);
                        assert(key_lt(hd.0, gs[w + 1].0));
                    }
                } else {
                    assert(r[i] == rr[i - 1]);
                    assert(r[j] == rr[j - 1]);
                }
            }
            assert forall|i: int|
                0 <= i < r.len() implies ((#[trigger] r[i]).0 == k || exists|j: int|
                0 <= j < gs.len() && #[trigger] gs[j].0 == r[i].0) by {
                if i == 0 {
                    assert(gs[0].0 == r[0].0);
                } else {
                    assert(r[i] == rr[i - 1]);
                    if rr[i - 1].0 != k {
                        let w = choose|w: int|
                            0 <= w < gs.drop_first().len() && #[trigger] gs.drop_first()[w].0
                                == rr[i - 1].0;
                        assert(gs.drop_first()[w] == gs[w + 1]);
                    }
                }
            }
        }
    }
}

/// Aggregation ordering: the keys of any grouping this module builds are
/// strictly ascending — `group_by_year` yields years in ascending numeric
/// order (fixed-width digits), `group_by_country` yields names in ascending
/// lexicographic order.
pub proof fn lemma_group_spec_sorted(keys: Seq<Seq<char>>, vs: Seq<VisitView>, n: int)
    ensures
        groups_sorted(group_spec(keys, vs, n)),
    decreases n,
{
    if n > 0 {
        lemma_group_spec_sorted(keys, vs, n - 1);
        lemma_insert_visit_sorted(group_spec(keys, vs, n - 1), keys[n - 1], vs[n - 1]);
    }
}

/// The visits of the first `n` ledger entries whose key is `k`, in ledger
/// order.
pub open spec fn bucket_of(keys: Seq<Seq<char>>, vs: Seq<VisitView>, n: int, k: Seq<char>) -> Seq<
    VisitView,
>
    decreases n,
{
    if n <= 0 {
        Seq::empty()
    } else if keys[n - 1] == k {
        bucket_of(keys, vs, n - 1, k).push(vs[n - 1])
    } else {
        bucket_of(keys, vs, n - 1, k)
    }
}

/// Looks a key up in a grouping.
pub open spec fn find_key(gs: Seq<(Seq<char>, Seq<VisitView>)>, k: Seq<char>) -> Option<
    Seq<VisitView>,
>
    decreases gs.len(),
{
    if gs.len() == 0 {
        None
    } else if gs[0].0 == k {
        Some(gs[0].1)
    } else {
        find_key(gs.drop_first(), k)
    }
}

/// No key below the sorted list's first key occurs in it.
proof fn lemma_find_key_none_below(gs: Seq<(Seq<char>, Seq<VisitView>)>, k: Seq<char>)
    requires
        groups_sorted(gs),
        gs.len() > 0 ==> key_lt(k, gs[0].0),
    ensures
        find_key(gs, k) is None,
    decreases gs.len(),
{
    if gs.len() > 0 {
        lemma_lex_trichotomy(encode_utf8(k), encode_utf8(gs[0].0));
        assert(gs[0].0 != k);
        assert(groups_sorted(gs.drop_first())) by {
            assert forall|i: int, j: int| 0 <= i < j < gs.drop_first().len() implies key_lt(
                (#[trigger] gs.drop_first()[i]).0,
                (#[trigger] gs.drop_first()[j]).0,
            ) by {
                assert(gs.drop_first()[i] == gs[i + 1]);
                assert(gs.drop_first()[j] == gs[j + 1]);
            }
        }
        if gs.len() > 1 {
            assert(gs.drop_first()[0] == gs[1]);
            assert(key_lt(gs[0].0, gs[1].0));
            lemma_lex_transitive(encode_utf8(k), encode_utf8(gs[0].0), encode_utf8(gs[1].0));
        }
        lemma_find_key_none_below(gs.drop_first(), k);
    }
}

proof fn lemma_insert_visit_find(
    gs: Seq<(Seq<char>, Seq<VisitView>)>,
    k: Seq<char>,
    v: VisitView,
    q: Seq<char>,
)
    requires
        groups_sorted(gs),
    ensures
        find_key(insert_visit(gs, k, v), q) == (if q == k {
            match find_key(gs, q) {
                Some(bucket) => Some(bucket.push(v)),
                None => Some(seq![v]),
            }
        } else {
            find_key(gs, q)
        }),
    decreases gs.len(),
{
    let r = insert_visit(gs, k, v);
    if gs.len() == 0 {
        if q != k {
            assert(r.drop_first() =~= Seq::<(Seq<char>, Seq<VisitView>)>::empty());
        }
    } else {
        let hd = gs[0];
        if hd.0 == k {
            assert(r.drop_first() =~= gs.drop_first());
        } else if key_lt(k, hd.0) {
            assert(r.drop_first() =~= gs);
            if q == k {
                lemma_find_key_none_below(gs, k);
            } else {
                assert(find_key(r, q) == find_key(gs, q));
            }
        } else {
            lemma_lex_trichotomy(encode_utf8(k), encode_utf8(hd.0));
            if encode_utf8(k) == encode_utf8(hd.0) {
                lemma_key_bytes_injective(k, hd.0);
            }
            assert(k != hd.0);
            let rr = insert_visit(gs.drop_first(), k, v);
            assert(r == seq![hd] + rr);
            assert(r[0] == hd);
            assert(r.drop_first() =~= rr);
            assert(groups_sorted(gs.drop_first())) by {
                assert forall|i: int, j: int| 0 <= i < j < gs.drop_first().len() implies key_lt(
                    (#[trigger] gs.drop_first()[i]).0,
                    (#[trigger] gs.drop_first()[j]).0,
                ) by {
                    assert(gs.drop_first()[i] == gs[i + 1]);
                    assert(gs.drop_first()[j] == gs[j + 1]);
                }
            }
            lemma_insert_visit_find(gs.drop_first(), k, v, q);
        }
    }
}

/// Bucket contents: grouping the first `n` visits puts under each key
/// exactly the visits carrying that key, in original ledger order, and
/// mentions no other key.
pub proof fn lemma_group_spec_buckets(keys: Seq<Seq<char>>, vs: Seq<VisitView>, n: int, q: Seq<char>)
    requires
        0 <= n,
    ensures
        find_key(group_spec(keys, vs, n), q) == (if bucket_of(keys, vs, n, q).len() > 0 {
            Some(bucket_of(keys, vs, n, q))
        } else {
            None
        }),
    decreases n,
{
    if n > 0 {
        lemma_group_spec_buckets(keys, vs, n - 1, q);
        lemma_group_spec_sorted(keys, vs, n - 1);
        lemma_insert_visit_find(group_spec(keys, vs, n - 1), keys[n - 1], vs[n - 1], q);
    }
}


// ---------------------------------------------------------------------------
// Aggregation (executable).
// ---------------------------------------------------------------------------

/// Inserts one visit under its key: appended to an existing bucket, or as a
/// new bucket at the key's sorted position.
fn insert_group(gs: &mut Vec<(String, Vec<Visit>)>, key: String, v: Visit)
    ensures
        groups_view(final(gs)@) == insert_visit(groups_view(old(gs)@), key@, v@),
{
    let n = gs.len();
    let mut idx: usize = 0;
    proof {
        assert(groups_view(gs@).skip(0) =~~= groups_view(gs@));
        assert(groups_view(gs@).take(0) =~~= Seq::<(Seq<char>, Seq<VisitView>)>::empty());
    }
    while idx < n
        invariant
            n == gs@.len(),
            0 <= idx <= n,
            *gs == *old(gs),
            insert_visit(groups_view(gs@), key@, v@) =~~= groups_view(gs@).take(idx as int)
                + insert_visit(groups_view(gs@).skip(idx as int), key@, v@),
        decreases n - idx,
    {
        let ghost gv = groups_view(gs@);
        proof {
            assert(gv.skip(idx as int)[0] == gv[idx as int]);
        }
        if gs[idx].0 == key {
            let mut pair = gs.remove(idx);
            pair.1.push(v);
            let ghost pushed = pair.1.deep_view();
            gs.insert(idx, pair);
            proof {
                assert(pushed =~= gv[idx as int].1.push(v@));
                assert(insert_visit(gv.skip(idx as int), key@, v@) =~~= seq![
                    (gv[idx as int].0, gv[idx as int].1.push(v@)),
                ] + gv.skip(idx as int).drop_first());
                assert(gv.skip(idx as int).drop_first() =~~= gv.skip(idx as int + 1));
                assert(groups_view(gs@) =~~= gv.take(idx as int) + (seq![
                    (gv[idx as int].0, gv[idx as int].1.push(v@)),
                ] + gv.skip(idx as int + 1)));
            }
            return ;
        }
        if str_lt(&key, &gs[idx].0) {
            let mut bucket: Vec<Visit> = Vec::new();
            bucket.push(v);
            let ghost bv = bucket.deep_view();
            gs.insert(idx, (key, bucket));
            proof {
                assert(bv =~= seq![v@]);
                assert(insert_visit(gv.skip(idx as int), key@, v@) =~~= seq![(key@, seq![v@])]
                    + gv.skip(idx as int));
                assert(groups_view(gs@) =~~= gv.take(idx as int) + (seq![(key@, seq![v@])]
                    + gv.skip(idx as int)));
            }
            return ;
        }
        proof {
            assert(insert_visit(gv.skip(idx as int), key@, v@) =~~= seq![gv[idx as int]]
                + insert_visit(gv.skip(idx as int).drop_first(), key@, v@));
            assert(gv.skip(idx as int).drop_first() =~~= gv.skip(idx as int + 1));
            assert(gv.take(idx as int) + (seq![gv[idx as int]] + insert_visit(
                gv.skip(idx as int + 1),
                key@,
                v@,
            )) =~~= gv.take(idx as int + 1) + insert_visit(gv.skip(idx as int + 1), key@, v@));
        }
        idx += 1;
    }
    let ghost gv = groups_view(gs@);
    let mut bucket: Vec<Visit> = Vec::new();
    bucket.push(v);
    let ghost bv = bucket.deep_view();
    gs.push((key, bucket));
    proof {
        assert(bv =~= seq![v@]);
        assert(gv.skip(n as int) =~~= Seq::<(Seq<char>, Seq<VisitView>)>::empty());
        assert(insert_visit(gv.skip(n as int), key@, v@) =~~= seq![(key@, seq![v@])]);
        assert(gv.take(n as int) =~~= gv);
        assert(groups_view(gs@) =~~= gv + seq![(key@, seq![v@])]);
        assert(groups_view(gs@) =~~= gv.take(n as int) + insert_visit(gv.skip(n as int), key@, v@));
    }
}

/// Groups a finished ledger by country name: keys in ascending lexicographic
/// order, each bucket keeping its visits in original ledger order. The
/// ledger itself is read-only, and the result is a function of the ledger,
/// so regrouping yields identical output.
pub fn group_by_country(ledger: &Visits) -> (r: Vec<(String, Vec<Visit>)>)
    ensures
        groups_view(r@) == group_spec(
            country_keys(ledger.deep_view()),
            ledger.deep_view(),
            ledger@.len() as int,
        ),
{
    let ghost dv = ledger.deep_view();
    let ghost keys = country_keys(dv);
    let n = ledger.len();
    let mut gs: Vec<(String, Vec<Visit>)> = Vec::new();
    let mut i: usize = 0;
    proof {
        assert(groups_view(gs@) =~~= group_spec(keys, dv, 0));
    }
    while i < n
        invariant
            n == ledger@.len(),
            0 <= i <= n,
            dv == ledger.deep_view(),
            keys == country_keys(dv),
            groups_view(gs@) == group_spec(keys, dv, i as int),
        decreases n - i,
    {
        let key = ledger[i].country.clone();
        let v = ledger[i].duplicate();
        proof {
            assert(keys[i as int] == dv[i as int].country);
            assert(dv[i as int] == ledger@[i as int]@);
        }
        insert_group(&mut gs, key, v);
        i += 1;
    }
    gs
}

/// Groups a finished ledger by the four-digit calendar year of each visit's
/// start timestamp: keys in ascending order (fixed-width digits, so
/// lexicographic equals numeric), each bucket keeping its visits in original
/// ledger order. Read-only and deterministic, like `group_by_country`.
pub fn group_by_year(ledger: &Visits) -> (r: Vec<(String, Vec<Visit>)>)
    requires
        forall|i: int| 0 <= i < ledger@.len() ==> (#[trigger] ledger@[i]).start.wf(),
    ensures
        groups_view(r@) == group_spec(
            year_keys(ledger.deep_view()),
            ledger.deep_view(),
            ledger@.len() as int,
        ),
{
    let ghost dv = ledger.deep_view();
    let ghost keys = year_keys(dv);
    let n = ledger.len();
    let mut gs: Vec<(String, Vec<Visit>)> = Vec::new();
    let mut i: usize = 0;
    proof {
        assert(groups_view(gs@) =~~= group_spec(keys, dv, 0));
    }
    while i < n
        invariant
            n == ledger@.len(),
            0 <= i <= n,
            dv == ledger.deep_view(),
            keys == year_keys(dv),
            forall|j: int| 0 <= j < ledger@.len() ==> (#[trigger] ledger@[j]).start.wf(),
            groups_view(gs@) == group_spec(keys, dv, i as int),
        decreases n - i,
    {
        let key = format_year(ledger[i].start.secs);
        let v = ledger[i].duplicate();
        proof {
            assert(keys[i as int] == year_label_of(dv[i as int].start.secs as int));
            assert(dv[i as int] == ledger@[i as int]@);
        }
        insert_group(&mut gs, key, v);
        i += 1;
    }
    gs
}

// ---------------------------------------------------------------------------
// Presentation state: which grouping the host is showing.
// ---------------------------------------------------------------------------

/// The grouping the host currently presents.
#[derive(Clone, Copy, PartialEq, Eq, Structural, Debug)]
pub enum SortBy {
    Country,
    Year,
}

/// Messages a host sends when the ledger or the chosen grouping changes.
pub enum ViewMsg {
    UpdateView(Visits),
    SortChanged(SortBy),
}

/// The presentation state: the ledger on display and its grouping order.
pub struct ViewModel {
    pub visits: Visits,
    pub order: SortBy,
}

impl ViewModel {
    /// An empty ledger, grouped by year.
    pub fn new() -> (r: ViewModel)
        ensures
            r.visits@.len() == 0,
            r.order == SortBy::Year,
    {
        ViewModel { visits: Vec::new(), order: SortBy::Year }
    }

    /// Applies one host message: replaces the ledger or the grouping order.
    pub fn update(&mut self, msg: ViewMsg)
        ensures
            match msg {
                ViewMsg::UpdateView(v) => final(self).visits == v && final(self).order == old(
                    self,
                ).order,
                ViewMsg::SortChanged(o) => final(self).order == o && final(self).visits == old(
                    self,
                ).visits,
            },
    {
        match msg {
            ViewMsg::UpdateView(v) => {
                self.visits = v;
            },
            ViewMsg::SortChanged(o) => {
                self.order = o;
            },
        }
    }

    /// The grouping currently selected, computed from the ledger on display.
    pub fn grouped(&self) -> (r: Vec<(String, Vec<Visit>)>)
        requires
            forall|i: int| 0 <= i < self.visits@.len() ==> (#[trigger] self.visits@[i]).start.wf(),
        ensures
            groups_view(r@) == (match self.order {
                SortBy::Country => group_spec(
                    country_keys(self.visits.deep_view()),
                    self.visits.deep_view(),
                    self.visits@.len() as int,
                ),
                SortBy::Year => group_spec(
                    year_keys(self.visits.deep_view()),
                    self.visits.deep_view(),
                    self.visits@.len() as int,
                ),
            }),
    {
        match self.order {
            SortBy::Country => group_by_country(&self.visits),
            SortBy::Year => group_by_year(&self.visits),
        }
    }
}

} // verus!
