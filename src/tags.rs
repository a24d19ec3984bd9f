//! Durations grouped by tag, kept in ascending tag order, and their totals.

use vstd::prelude::*;
use crate::duration::Duration;
use crate::text::chars_of;

verus! {

/// Lexicographic order of texts by character code, as `String`'s `Ord` has it.
pub open spec fn tag_less(a: Seq<char>, b: Seq<char>) -> bool
    decreases a.len(),
{
    if a.len() == 0 {
        b.len() > 0
    } else if b.len() == 0 {
        false
    } else if a[0] != b[0] {
        a[0] < b[0]
    } else {
        tag_less(a.drop_first(), b.drop_first())
    }
}

proof fn lemma_tag_less_irreflexive(a: Seq<char>)
    ensures
        !tag_less(a, a),
    decreases a.len(),
{
    if a.len() > 0 {
        lemma_tag_less_irreflexive(a.drop_first());
    }
}

proof fn lemma_tag_less_transitive(a: Seq<char>, b: Seq<char>, c: Seq<char>)
    requires
        tag_less(a, b),
        tag_less(b, c),
    ensures
        tag_less(a, c),
    decreases a.len(),
{
    if a.len() > 0 && b.len() > 0 && c.len() > 0 && a[0] == b[0] && b[0] == c[0] {
        lemma_tag_less_transitive(a.drop_first(), b.drop_first(), c.drop_first());
    }
}

/// Three-way comparison of two texts: negative, zero or positive as `a`
/// comes before, equals or comes after `b`.
fn compare_tags(a: &Vec<char>, b: &Vec<char>) -> (r: i8)
    ensures
        r < 0 <==> tag_less(a@, b@),
        r == 0 <==> a@ == b@,
        r > 0 <==> tag_less(b@, a@),
{
    let mut i: usize = 0;
    assert(a@.skip(0) =~= a@);
    assert(b@.skip(0) =~= b@);
    while i < a.len() && i < b.len()
        invariant
            i <= a.len(),
            i <= b.len(),
            a@.take(i as int) == b@.take(i as int),
            tag_less(a@, b@) == tag_less(a@.skip(i as int), b@.skip(i as int)),
            tag_less(b@, a@) == tag_less(b@.skip(i as int), a@.skip(i as int)),
        decreases a.len() - i,
    {
        if a[i] != b[i] {
            assert(a@.skip(i as int)[0] == a@[i as int]);
            assert(b@.skip(i as int)[0] == b@[i as int]);
            assert(a@[i as int] != b@[i as int]);
            assert(a@ != b@);
            if a[i] < b[i] {
                return -1;
            } else {
                return 1;
            }
        }
        assert(a@.skip(i as int).drop_first() =~= a@.skip(i + 1));
        assert(b@.skip(i as int).drop_first() =~= b@.skip(i + 1));
        assert(a@.take(i + 1) =~= a@.take(i as int).push(a@[i as int]));
        assert(b@.take(i + 1) =~= b@.take(i as int).push(b@[i as int]));
        i = i + 1;
    }
    if a.len() == b.len() {
        assert(a@ =~= a@.take(i as int));
        assert(b@ =~= b@.take(i as int));
        proof { lemma_tag_less_irreflexive(a@); }
        0
    } else if a.len() < b.len() {
        assert(a@ != b@);
        assert(a@.skip(i as int).len() == 0);
        -1
    } else {
        assert(a@ != b@);
        assert(b@.skip(i as int).len() == 0);
        1
    }
}

/// Sum of the minutes of `ds`.
pub open spec fn total_minutes(ds: Seq<Duration>) -> int
    decreases ds.len(),
{
    if ds.len() == 0 {
        0
    } else {
        total_minutes(ds.drop_last()) + ds.last().minutes
    }
}

/// Tags with the durations recorded under them.
pub type Groups = Seq<(Seq<char>, Seq<Duration>)>;

/// Tags strictly ascending, hence each present once.
pub open spec fn sorted_tags(g: Groups) -> bool {
    forall|i: int, j: int| 0 <= i < j < g.len() ==> tag_less(#[trigger] g[i].0, #[trigger] g[j].0)
}

/// `g` with `d` appended under `tag`; a new tag gets its own place in order.
pub open spec fn recorded(g: Groups, tag: Seq<char>, d: Duration) -> Groups
    decreases g.len(),
{
    if g.len() == 0 {
        seq![(tag, seq![d])]
    } else if g[0].0 == tag {
        g.update(0, (tag, g[0].1.push(d)))
    } else if tag_less(tag, g[0].0) {
        seq![(tag, seq![d])] + g
    } else {
        seq![g[0]] + recorded(g.drop_first(), tag, d)
    }
}

/// The durations recorded under `tag`, if any.
pub open spec fn lookup(g: Groups, tag: Seq<char>) -> Option<Seq<Duration>>
    decreases g.len(),
{
    if g.len() == 0 {
        None
    } else if g[0].0 == tag {
        Some(g[0].1)
    } else {
        lookup(g.drop_first(), tag)
    }
}

/// Sum of all durations of all tags.
pub open spec fn groups_total(g: Groups) -> int
    decreases g.len(),
{
    if g.len() == 0 {
        0
    } else {
        groups_total(g.drop_last()) + total_minutes(g.last().1)
    }
}

pub open spec fn fits_i64(x: int) -> bool {
    i64::MIN <= x <= i64::MAX
}

/// Every running sum that summarizing `g` forms fits in an `i64`.
pub open spec fn sums_in_range(g: Groups) -> bool {
    &&& forall|i: int, k: int|
        0 <= i < g.len() && 0 <= k <= g[i].1.len() ==> fits_i64(
            #[trigger] total_minutes(g[i].1.take(k)),
        )
    &&& forall|i: int| 0 <= i <= g.len() ==> fits_i64(#[trigger] groups_total(g.take(i)))
}

/// Sum of the durations of a summary.
pub open spec fn summary_total(s: Seq<(String, Duration)>) -> int
    decreases s.len(),
{
    if s.len() == 0 {
        0
    } else {
        summary_total(s.drop_last()) + s.last().1.minutes
    }
}

/// Durations grouped by tag, tags in ascending order.
pub struct TagDurations {
    entries: Vec<(String, Vec<Duration>)>,
}

impl View for TagDurations {
    type V = Groups;

    closed spec fn view(&self) -> Groups {
        self.entries@.map_values(|e: (String, Vec<Duration>)| (e.0@, e.1@))
    }
}

proof fn lemma_tag_less_asymmetric(a: Seq<char>, b: Seq<char>)
    requires
        tag_less(a, b),
    ensures
        !tag_less(b, a),
        a != b,
{
    lemma_tag_less_irreflexive(a);
    if tag_less(b, a) {
        lemma_tag_less_transitive(a, b, a);
    }
}

proof fn lemma_recorded_skip(g: Groups, tag: Seq<char>, d: Duration, i: int)
    requires
        0 <= i <= g.len(),
        forall|k: int| 0 <= k < i ==> tag_less(#[trigger] g[k].0, tag),
    ensures
        recorded(g, tag, d) == g.take(i) + recorded(g.skip(i), tag, d),
    decreases i,
{
    if i == 0 {
        assert(g.skip(0) =~= g);
        assert(g.take(0) + recorded(g, tag, d) =~= recorded(g, tag, d));
    } else {
        lemma_tag_less_asymmetric(g[0].0, tag);
        let rest = g.drop_first();
        assert forall|k: int| 0 <= k < i - 1 implies tag_less(#[trigger] rest[k].0, tag) by {
            assert(rest[k] == g[k + 1]);
        }
        lemma_recorded_skip(rest, tag, d, i - 1);
        assert(rest.skip(i - 1) =~= g.skip(i));
        assert(g.take(i) =~= seq![g[0]] + rest.take(i - 1));
    }
}

proof fn lemma_lookup_skip(g: Groups, tag: Seq<char>, i: int)
    requires
        0 <= i <= g.len(),
        forall|k: int| 0 <= k < i ==> (#[trigger] g[k].0) != tag,
    ensures
        lookup(g, tag) == lookup(g.skip(i), tag),
    decreases i,
{
    if i == 0 {
        assert(g.skip(0) =~= g);
    } else {
        let rest = g.drop_first();
        assert forall|k: int| 0 <= k < i - 1 implies (#[trigger] rest[k].0) != tag by {
            assert(rest[k] == g[k + 1]);
        }
        lemma_lookup_skip(rest, tag, i - 1);
        assert(rest.skip(i - 1) =~= g.skip(i));
    }
}

impl TagDurations {
    /// Tags ascending and unique.
    pub open spec fn wf(&self) -> bool {
        sorted_tags(self@)
    }

    /// No tags yet.
    pub fn new() -> (r: TagDurations)
        ensures
            r.wf(),
            r@ == Seq::<(Seq<char>, Seq<Duration>)>::empty(),
    {
        let r = TagDurations { entries: Vec::new() };
        assert(r@ =~= Seq::<(Seq<char>, Seq<Duration>)>::empty());
        r
    }

    /// Number of distinct tags.
    pub fn len(&self) -> (r: usize)
        ensures
            r == self@.len(),
    {
        self.entries.len()
    }

    /// The tag at `i` in ascending order and the durations under it.
    pub fn entry(&self, i: usize) -> (r: (&String, &Vec<Duration>))
        requires
            i < self@.len(),
        ensures
            r.0@ == self@[i as int].0,
            r.1@ == self@[i as int].1,
    {
        let e = &self.entries[i];
        (&e.0, &e.1)
    }

    /// Appends `d` to the durations of `tag`, adding the tag if it is new.
    pub fn record(&mut self, tag: String, d: Duration)
        requires
            old(self).wf(),
        ensures
            final(self).wf(),
            final(self)@ == recorded(old(self)@, tag@, d),
    {
        let t = chars_of(tag.as_str());
        let ghost g = self@;
        let mut i: usize = 0;
        while i < self.entries.len()
            invariant
                self@ == g,
                g == old(self)@,
                sorted_tags(g),
                t@ == tag@,
                i <= g.len(),
                g.len() == self.entries.len(),
                forall|k: int| 0 <= k < i ==> tag_less(#[trigger] g[k].0, tag@),
            decreases self.entries.len() - i,
        {
            let c = compare_tags(&chars_of(self.entries[i].0.as_str()), &t);
            assert(self.entries[i as int].0@ == g[i as int].0);
            if c == 0 {
                let (key, mut ds) = self.entries.remove(i);
                ds.push(d);
                self.entries.insert(i, (key, ds));
                proof {
                    lemma_recorded_skip(g, tag@, d, i as int);
                    let new_entry = (tag@, g[i as int].1.push(d));
                    assert(recorded(g.skip(i as int), tag@, d) == g.skip(i as int).update(
                        0,
                        new_entry,
                    ));
                    assert(self@ =~= g.update(i as int, new_entry));
                    assert(g.take(i as int) + g.skip(i as int).update(0, new_entry) =~= g.update(
                        i as int,
                        new_entry,
                    ));
                    assert forall|a: int, b: int| 0 <= a < b < self@.len() implies tag_less(
                        #[trigger] self@[a].0,
                        #[trigger] self@[b].0,
                    ) by {
                        assert(self@[a].0 == g[a].0);
                        assert(self@[b].0 == g[b].0);
                    }
                    assert(self@ == recorded(g, tag@, d));
                }
                return ;
            } else if c > 0 {
                let mut ds: Vec<Duration> = Vec::new();
                ds.push(d);
                self.entries.insert(i, (tag, ds));
                proof {
                    lemma_recorded_skip(g, tag@, d, i as int);
                    let new_entry = (tag@, seq![d]);
                    assert(recorded(g.skip(i as int), tag@, d) == seq![new_entry] + g.skip(i as int));
                    assert(self@ =~= g.insert(i as int, new_entry));
                    assert(g.take(i as int) + (seq![new_entry] + g.skip(i as int)) =~= g.insert(
                        i as int,
                        new_entry,
                    ));
                    assert forall|a: int, b: int| 0 <= a < b < self@.len() implies tag_less(
                        #[trigger] self@[a].0,
                        #[trigger] self@[b].0,
                    ) by {
                        if b == i {
                            assert(self@[a].0 == g[a].0);
                        } else if a == i {
                            assert(self@[b].0 == g[b - 1].0);
                            if b - 1 > i {
                                lemma_tag_less_transitive(tag@, g[i as int].0, g[b - 1].0);
                            }
                        } else if a < i {
                            assert(self@[a].0 == g[a].0);
                            if b < i {
                                assert(self@[b].0 == g[b].0);
                            } else {
                                assert(self@[b].0 == g[b - 1].0);
                            }
                        } else {
                            assert(self@[a].0 == g[a - 1].0);
                            assert(self@[b].0 == g[b - 1].0);
                        }
                    }
                }
                return ;
            }
            i = i + 1;
        }
        let mut ds: Vec<Duration> = Vec::new();
        ds.push(d);
        self.entries.push((tag, ds));
        proof {
            lemma_recorded_skip(g, tag@, d, i as int);
            let new_entry = (tag@, seq![d]);
            assert(g.skip(i as int) =~= Seq::<(Seq<char>, Seq<Duration>)>::empty());
            assert(g.take(i as int) =~= g);
            assert(self@ =~= g.push(new_entry));
            assert forall|a: int, b: int| 0 <= a < b < self@.len() implies tag_less(
                #[trigger] self@[a].0,
                #[trigger] self@[b].0,
            ) by {
                assert(self@[a].0 == g[a].0);
                if b < g.len() {
                    assert(self@[b].0 == g[b].0);
                }
            }
        }
    }

    /// The durations recorded under `tag`, if it is present.
    pub fn get(&self, tag: &str) -> (r: Option<&Vec<Duration>>)
        ensures
            r matches Some(v) ==> lookup(self@, tag@) == Some(v@),
            r is None ==> lookup(self@, tag@) is None,
    {
        let t = chars_of(tag);
        let mut i: usize = 0;
        while i < self.entries.len()
            invariant
                t@ == tag@,
                i <= self@.len(),
                self@.len() == self.entries.len(),
                forall|k: int| 0 <= k < i ==> (#[trigger] self@[k].0) != tag@,
            decreases self.entries.len() - i,
        {
            let c = compare_tags(&chars_of(self.entries[i].0.as_str()), &t);
            if c == 0 {
                proof {
                    lemma_lookup_skip(self@, tag@, i as int);
                    assert(self@.skip(i as int)[0] == self@[i as int]);
                }
                return Some(&self.entries[i].1);
            }
            i = i + 1;
        }
        proof {
            lemma_lookup_skip(self@, tag@, i as int);
        }
        None
    }
}

proof fn lemma_total_minutes_step(ds: Seq<Duration>, k: int)
    requires
        0 <= k < ds.len(),
    ensures
        total_minutes(ds.take(k + 1)) == total_minutes(ds.take(k)) + ds[k].minutes,
{
    assert(ds.take(k + 1).drop_last() =~= ds.take(k));
}

proof fn lemma_groups_total_step(g: Groups, i: int)
    requires
        0 <= i < g.len(),
    ensures
        groups_total(g.take(i + 1)) == groups_total(g.take(i)) + total_minutes(g[i].1),
{
    assert(g.take(i + 1).drop_last() =~= g.take(i));
}

/// Per-tag totals in ascending tag order, and the sum of all durations.
pub fn summarize_durations(groups: &TagDurations) -> (r: (Vec<(String, Duration)>, Duration))
    requires
        groups.wf(),
        sums_in_range(groups@),
    ensures
        r.0.len() == groups@.len(),
        forall|i: int|
            0 <= i < r.0.len() ==> (#[trigger] r.0[i]).0@ == groups@[i].0 && r.0[i].1.minutes
                == total_minutes(groups@[i].1),
        forall|i: int, j: int|
            0 <= i < j < r.0.len() ==> tag_less((#[trigger] r.0[i]).0@, (#[trigger] r.0[j]).0@),
        r.1.minutes == summary_total(r.0@),
        r.1.minutes == groups_total(groups@),
{
    let ghost g = groups@;
    let mut summary: Vec<(String, Duration)> = Vec::new();
    let mut total: i64 = 0;
    let mut i: usize = 0;
    while i < groups.entries.len()
        invariant
            g == groups@,
            sorted_tags(g),
            sums_in_range(g),
            g.len() == groups.entries.len(),
            i <= g.len(),
            summary.len() == i,
            forall|m: int|
                0 <= m < i ==> (#[trigger] summary[m]).0@ == g[m].0 && summary[m].1.minutes
                    == total_minutes(g[m].1),
            total == groups_total(g.take(i as int)),
            total == summary_total(summary@),
        decreases g.len() - i,
    {
        let entry = &groups.entries[i];
        let ds = &entry.1;
        assert(ds@ == g[i as int].1);
        let mut sum: i64 = 0;
        let mut k: usize = 0;
        assert(ds@.take(0) =~= Seq::<Duration>::empty());
        while k < ds.len()
            invariant
                ds@ == g[i as int].1,
                i < g.len(),
                sums_in_range(g),
                k <= ds.len(),
                sum == total_minutes(ds@.take(k as int)),
            decreases ds.len() - k,
        {
            proof {
                lemma_total_minutes_step(ds@, k as int);
                assert(fits_i64(total_minutes(g[i as int].1.take(k + 1))));
            }
            sum = sum + ds[k].minutes;
            k = k + 1;
        }
        assert(ds@.take(k as int) =~= ds@);
        proof {
            lemma_groups_total_step(g, i as int);
            assert(fits_i64(groups_total(g.take(i + 1))));
        }
        let ghost before = summary@;
        total = total + sum;
        summary.push((entry.0.clone(), Duration::minutes(sum)));
        assert(summary@.drop_last() =~= before);
        i = i + 1;
    }
    assert(g.take(i as int) =~= g);
    proof {
        assert forall|a: int, b: int| 0 <= a < b < summary.len() implies tag_less(
            (#[trigger] summary[a]).0@,
            (#[trigger] summary[b]).0@,
        ) by {
            assert(tag_less(g[a].0, g[b].0));
        }
    }
    (summary, Duration::minutes(total))
}

/// Whether every running sum of `summarize_durations` on `groups` fits in
/// an `i64`.
pub fn sums_fit(groups: &TagDurations) -> (r: bool)
    ensures
        r == sums_in_range(groups@),
{
    let ghost g = groups@;
    let mut total: i128 = 0;
    let mut i: usize = 0;
    assert(g.take(0) =~= Seq::<(Seq<char>, Seq<Duration>)>::empty());
    while i < groups.entries.len()
        invariant
            g == groups@,
            g.len() == groups.entries.len(),
            i <= g.len(),
            total == groups_total(g.take(i as int)),
            forall|m: int, k: int|
                0 <= m < i && 0 <= k <= g[m].1.len() ==> fits_i64(
                    #[trigger] total_minutes(g[m].1.take(k)),
                ),
            forall|m: int| 0 <= m <= i ==> fits_i64(#[trigger] groups_total(g.take(m))),
        decreases g.len() - i,
    {
        let ds = &groups.entries[i].1;
        assert(ds@ == g[i as int].1);
        let mut sum: i128 = 0;
        let mut k: usize = 0;
        assert(ds@.take(0) =~= Seq::<Duration>::empty());
        while k < ds.len()
            invariant
                g == groups@,
                ds@ == g[i as int].1,
                i < g.len(),
                k <= ds.len(),
                sum == total_minutes(ds@.take(k as int)),
                forall|j: int| 0 <= j <= k ==> fits_i64(#[trigger] total_minutes(ds@.take(j))),
            decreases ds.len() - k,
        {
            proof {
                lemma_total_minutes_step(ds@, k as int);
            }
            sum = sum + ds[k].minutes as i128;
            k = k + 1;
            if sum < i64::MIN as i128 || sum > i64::MAX as i128 {
                assert(!fits_i64(total_minutes(g[i as int].1.take(k as int))));
                return false;
            }
        }
        assert(ds@.take(k as int) =~= ds@);
        proof {
            lemma_groups_total_step(g, i as int);
        }
        total = total + sum;
        i = i + 1;
        if total < i64::MIN as i128 || total > i64::MAX as i128 {
            assert(!fits_i64(groups_total(g.take(i as int))));
            return false;
        }
    }
    true
}

proof fn lemma_groups_total_prepend(x: (Seq<char>, Seq<Duration>), g: Groups)
    ensures
        groups_total(seq![x] + g) == total_minutes(x.1) + groups_total(g),
    decreases g.len(),
{
    if g.len() > 0 {
        assert((seq![x] + g).drop_last() =~= seq![x] + g.drop_last());
        assert((seq![x] + g).last() == g.last());
        lemma_groups_total_prepend(x, g.drop_last());
    } else {
        assert((seq![x] + g).drop_last() =~= Seq::<(Seq<char>, Seq<Duration>)>::empty());
        assert((seq![x] + g).last() == x);
        assert(g =~= Seq::<(Seq<char>, Seq<Duration>)>::empty());
        assert(groups_total(Seq::<(Seq<char>, Seq<Duration>)>::empty()) == 0);
    }
}

/// Recording a duration under any tag adds it to the sum of all durations.
pub proof fn lemma_recorded_total(g: Groups, tag: Seq<char>, d: Duration)
    ensures
        groups_total(recorded(g, tag, d)) == groups_total(g) + d.minutes,
    decreases g.len(),
{
    let single = (tag, seq![d]);
    assert(seq![d].drop_last() =~= Seq::<Duration>::empty());
    assert(seq![d].last() == d);
    assert(total_minutes(Seq::<Duration>::empty()) == 0);
    assert(total_minutes(seq![d]) == d.minutes);
    if g.len() == 0 {
        assert(seq![single] =~= seq![single] + g);
        lemma_groups_total_prepend(single, g);
    } else {
        let rest = g.drop_first();
        assert(g =~= seq![g[0]] + rest);
        lemma_groups_total_prepend(g[0], rest);
        if g[0].0 == tag {
            let grown = (tag, g[0].1.push(d));
            assert(g.update(0, grown) =~= seq![grown] + rest);
            lemma_groups_total_prepend(grown, rest);
            assert(g[0].1.push(d).drop_last() =~= g[0].1);
        } else if tag_less(tag, g[0].0) {
            lemma_groups_total_prepend(single, g);
        } else {
            lemma_recorded_total(rest, tag, d);
            lemma_groups_total_prepend(g[0], recorded(rest, tag, d));
        }
    }
}

} // verus!
