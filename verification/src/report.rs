//! Guard reports: the outstanding guards of a subtree aggregated by the source
//! location they were created at, oldest first.
use vstd::prelude::*;

verus! {

/// A source location: file name bytes, line, column.
#[derive(Debug)]
pub struct Location {
    pub file: Vec<u8>,
    pub line: u32,
    pub column: u32,
}

pub struct LocationView {
    pub file: Seq<u8>,
    pub line: u32,
    pub column: u32,
}

impl View for Location {
    type V = LocationView;

    open spec fn view(&self) -> LocationView {
        LocationView { file: self.file@, line: self.line, column: self.column }
    }
}


/// One outstanding guard: where it was created, and how old it is in
/// nanoseconds when that is known.
#[derive(Debug)]
pub struct GuardInfo {
    pub location: Location,
    pub age: Option<u128>,
}

pub struct GuardInfoView {
    pub location: LocationView,
    pub age: Option<u128>,
}

impl View for GuardInfo {
    type V = GuardInfoView;

    open spec fn view(&self) -> GuardInfoView {
        GuardInfoView { location: self.location@, age: self.age }
    }
}

/// The outstanding guards that share a single creation site.
#[derive(Debug)]
pub struct GuardReportEntry {
    location: Location,
    count: usize,
    oldest_age: Option<u128>,
}

pub struct EntryView {
    pub location: LocationView,
    pub count: nat,
    pub oldest_age: Option<u128>,
}

impl View for GuardReportEntry {
    type V = EntryView;

    closed spec fn view(&self) -> EntryView {
        EntryView { location: self.location@, count: self.count as nat, oldest_age: self.oldest_age }
    }
}

/// A point-in-time snapshot of outstanding guards, aggregated by creation
/// site, oldest first.
#[derive(Debug)]
pub struct GuardReport {
    entries: Vec<GuardReportEntry>,
}

pub open spec fn infos_view(s: Seq<GuardInfo>) -> Seq<GuardInfoView> {
    s.map_values(|g: GuardInfo| g@)
}

pub open spec fn entries_view(s: Seq<GuardReportEntry>) -> Seq<EntryView> {
    s.map_values(|e: GuardReportEntry| e@)
}

impl View for GuardReport {
    type V = Seq<EntryView>;

    closed spec fn view(&self) -> Seq<EntryView> {
        entries_view(self.entries@)
    }
}

/// The larger of two ages, an unknown age being smaller than any known one.
pub open spec fn age_max(a: Option<u128>, b: Option<u128>) -> Option<u128> {
    match (a, b) {
        (None, x) => x,
        (x, None) => x,
        (Some(x), Some(y)) => Some(if x >= y { x } else { y }),
    }
}

/// Age `a` is greater than age `b`, an unknown age being smaller than any
/// known one.
pub open spec fn age_gt(a: Option<u128>, b: Option<u128>) -> bool {
    match (a, b) {
        (Some(x), Some(y)) => x > y,
        (Some(_), None) => true,
        _ => false,
    }
}

/// How many of the guards were created at `l`.
pub open spec fn count_at(infos: Seq<GuardInfoView>, l: LocationView) -> nat
    decreases infos.len(),
{
    if infos.len() == 0 {
        0
    } else {
        count_at(infos.drop_last(), l) + (if infos.last().location == l { 1nat } else { 0nat })
    }
}

/// The age of the oldest guard created at `l`.
pub open spec fn oldest_at(infos: Seq<GuardInfoView>, l: LocationView) -> Option<u128>
    decreases infos.len(),
{
    if infos.len() == 0 {
        None
    } else if infos.last().location == l {
        age_max(oldest_at(infos.drop_last(), l), infos.last().age)
    } else {
        oldest_at(infos.drop_last(), l)
    }
}

/// Report order: older first; equal ages by location.
pub open spec fn entry_before(x: EntryView, y: EntryView) -> bool {
    age_gt(x.oldest_age, y.oldest_age) || (x.oldest_age == y.oldest_age && location_lt(x.location, y.location))
}

/// The entry tells the truth about the guards at its location.
pub open spec fn entry_faithful(infos: Seq<GuardInfoView>, e: EntryView) -> bool {
    &&& e.count == count_at(infos, e.location)
    &&& e.count > 0
    &&& e.oldest_age == oldest_at(infos, e.location)
}

/// The sum of the entries' counts.
pub open spec fn entry_total(entries: Seq<EntryView>) -> nat
    decreases entries.len(),
{
    if entries.len() == 0 {
        0
    } else {
        entry_total(entries.drop_last()) + entries.last().count
    }
}

/// `entries` is the report of `infos`: one faithful entry per location that
/// some guard was created at, in report order.
pub open spec fn is_report_of(entries: Seq<EntryView>, infos: Seq<GuardInfoView>) -> bool {
    &&& forall|i: int| 0 <= i < entries.len() ==> entry_faithful(infos, #[trigger] entries[i])
    &&& forall|k: int| 0 <= k < infos.len() ==> exists|i: int| 0 <= i < entries.len() && #[trigger] entries[i].location == (#[trigger] infos[k]).location
    &&& forall|i: int, j: int| 0 <= i < j < entries.len() ==> entry_before(#[trigger] entries[i], #[trigger] entries[j])
}

pub proof fn lemma_count_at_bound(infos: Seq<GuardInfoView>, l: LocationView)
    ensures
        count_at(infos, l) <= infos.len(),
    decreases infos.len(),
{
    if infos.len() > 0 {
        lemma_count_at_bound(infos.drop_last(), l);
    }
}

/// A location no guard was created at has no guard and no age.
pub proof fn lemma_absent_location(infos: Seq<GuardInfoView>, l: LocationView)
    requires
        forall|k: int| 0 <= k < infos.len() ==> (#[trigger] infos[k]).location != l,
    ensures
        count_at(infos, l) == 0,
        oldest_at(infos, l) == None::<u128>,
    decreases infos.len(),
{
    if infos.len() > 0 {
        assert(infos.last() == infos[infos.len() - 1]);
        lemma_absent_location(infos.drop_last(), l);
    }
}

pub proof fn lemma_total_update(s: Seq<EntryView>, p: int, e: EntryView)
    requires
        0 <= p < s.len(),
    ensures
        entry_total(s.update(p, e)) == entry_total(s) - s[p].count + e.count,
    decreases s.len(),
{
    if p == s.len() - 1 {
        assert(s.update(p, e).drop_last() =~= s.drop_last());
    } else {
        lemma_total_update(s.drop_last(), p, e);
        assert(s.update(p, e).drop_last() =~= s.drop_last().update(p, e));
    }
}

pub proof fn lemma_total_insert(s: Seq<EntryView>, p: int, e: EntryView)
    requires
        0 <= p <= s.len(),
    ensures
        entry_total(s.insert(p, e)) == entry_total(s) + e.count,
    decreases s.len(),
{
    if p == s.len() {
        assert(s.insert(p, e) =~= s.push(e));
        assert(s.push(e).drop_last() =~= s);
    } else {
        lemma_total_insert(s.drop_last(), p, e);
        assert(s.insert(p, e).drop_last() =~= s.drop_last().insert(p, e));
    }
}

pub proof fn lemma_age_order(a: Option<u128>, b: Option<u128>, c: Option<u128>)
    ensures
        a != b ==> age_gt(a, b) || age_gt(b, a),
        age_gt(a, b) ==> !age_gt(b, a),
        age_gt(a, b) && age_gt(b, c) ==> age_gt(a, c),
        !age_gt(a, a),
{
}

pub proof fn lemma_location_order(a: LocationView, b: LocationView, c: LocationView)
    ensures
        a != b ==> location_lt(a, b) || location_lt(b, a),
        location_lt(a, b) && location_lt(b, c) ==> location_lt(a, c),
        !location_lt(a, a),
{
    lemma_bytes_lt_total(a.file, b.file);
    lemma_bytes_lt_irreflexive(a.file);
    if bytes_lt(a.file, b.file) && bytes_lt(b.file, c.file) {
        lemma_bytes_lt_transitive(a.file, b.file, c.file);
    }
    if a != b && a.file == b.file && a.line == b.line && a.column == b.column {
        assert(a == b);
    }
}

/// Report order is a strict total order on entries with distinct locations.
pub proof fn lemma_entry_order(x: EntryView, y: EntryView, z: EntryView)
    ensures
        x.location != y.location ==> entry_before(x, y) || entry_before(y, x),
        entry_before(x, y) && entry_before(y, z) ==> entry_before(x, z),
        !entry_before(x, x),
{
    lemma_age_order(x.oldest_age, y.oldest_age, z.oldest_age);
    lemma_location_order(x.location, y.location, z.location);
}

/// The larger of two ages.
pub fn older(a: Option<u128>, b: Option<u128>) -> (r: Option<u128>)
    ensures
        r == age_max(a, b),
        a is Some ==> r is Some && r->0 >= a->0,
        b is Some ==> r is Some && r->0 >= b->0,
        r == a || r == b,
{
    match (a, b) {
        (None, x) => x,
        (x, None) => x,
        (Some(x), Some(y)) => Some(if x >= y { x } else { y }),
    }
}

/// Whether entry `x` comes before entry `y` in a report.
pub fn entry_precedes(x: &GuardReportEntry, y: &GuardReportEntry) -> (r: bool)
    ensures
        r == entry_before(x@, y@),
{
    match (x.oldest_age, y.oldest_age) {
        (Some(a), Some(b)) => {
            if a != b {
                return a > b;
            }
        },
        (Some(_), None) => {
            return true;
        },
        (None, Some(_)) => {
            return false;
        },
        (None, None) => {},
    }
    location_less(&x.location, &y.location)
}


/// The per-location entries of `infos`, in no particular order.
fn aggregate(infos: &Vec<GuardInfo>) -> (r: Vec<GuardReportEntry>)
    ensures
        forall|i: int| 0 <= i < r@.len() ==> entry_faithful(infos_view(infos@), #[trigger] entries_view(r@)[i]),
        forall|k: int| 0 <= k < infos@.len() ==> exists|i: int| 0 <= i < r@.len()
            && #[trigger] entries_view(r@)[i].location == (#[trigger] infos_view(infos@)[k]).location,
        forall|s: int, t: int| 0 <= s < t < r@.len() ==> (#[trigger] entries_view(r@)[s]).location != (#[trigger] entries_view(r@)[t]).location,
        entry_total(entries_view(r@)) == infos@.len(),
{
    let ghost iv = infos_view(infos@);
    let mut agg: Vec<GuardReportEntry> = Vec::new();
    let mut i: usize = 0;
    proof {
        assert(entries_view(agg@) =~= Seq::<EntryView>::empty());
    }
    while i < infos.len()
        invariant
            iv == infos_view(infos@),
            i <= infos@.len(),
            forall|q: int| 0 <= q < agg@.len() ==> entry_faithful(iv.take(i as int), #[trigger] entries_view(agg@)[q]),
            forall|k: int| 0 <= k < i ==> exists|q: int| 0 <= q < agg@.len()
                && #[trigger] entries_view(agg@)[q].location == (#[trigger] iv[k]).location,
            forall|s: int, t: int| 0 <= s < t < agg@.len() ==> (#[trigger] entries_view(agg@)[s]).location != (#[trigger] entries_view(agg@)[t]).location,
            entry_total(entries_view(agg@)) == i,
        decreases infos@.len() - i,
    {
        let info = &infos[i];
        let ghost l = info@.location;
        let ghost av = entries_view(agg@);
        proof {
            assert(iv[i as int] == info@);
            assert(iv.take(i + 1).drop_last() =~= iv.take(i as int));
            assert(iv.take(i + 1).last() == info@);
        }
        let mut q: usize = 0;
        let mut found = false;
        while q < agg.len()
            invariant
                q <= agg@.len(),
                av == entries_view(agg@),
                l == info@.location,
                !found ==> forall|r: int| 0 <= r < q ==> (#[trigger] av[r]).location != l,
                found ==> q < agg@.len() && av[q as int].location == l,
            ensures
                found ==> q < agg@.len() && av[q as int].location == l,
                !found ==> forall|r: int| 0 <= r < agg@.len() ==> (#[trigger] av[r]).location != l,
            decreases agg@.len() - q + (if found { 0int } else { 1int }),
        {
            if same_location(&agg[q].location, &info.location) {
                found = true;
                break;
            }
            q = q + 1;
        }
        if found {
            proof {
                assert(av[q as int] == agg@[q as int]@);
                lemma_count_at_bound(iv.take(i as int), l);
            }
            let c = agg[q].count;
            let o = older(agg[q].oldest_age, info.age);
            agg[q].count = c + 1;
            agg[q].oldest_age = o;
            proof {
                let e2 = EntryView { location: l, count: av[q as int].count + 1, oldest_age: age_max(av[q as int].oldest_age, info@.age) };
                assert(entries_view(agg@) =~= av.update(q as int, e2));
                lemma_total_update(av, q as int, e2);
                let nv = entries_view(agg@);
                assert forall|r: int| 0 <= r < nv.len() implies entry_faithful(iv.take(i + 1), #[trigger] nv[r]) by {
                    assert(entry_faithful(iv.take(i as int), av[r]));
                    if r != q {
                        if av[r].location == l {
                            assert(av[r].location == av[q as int].location);
                            if r < q {
                                assert(av[r].location != av[q as int].location);
                            } else {
                                assert(av[q as int].location != av[r].location);
                            }
                        }
                    }
                }
                assert forall|k: int| 0 <= k < i + 1 implies exists|r: int| 0 <= r < nv.len()
                    && #[trigger] nv[r].location == (#[trigger] iv[k]).location by {
                    if k < i {
                        let r = choose|r: int| 0 <= r < av.len() && #[trigger] av[r].location == iv[k].location;
                        assert(nv[r].location == iv[k].location);
                    } else {
                        assert(nv[q as int].location == iv[k].location);
                    }
                }
                assert forall|s: int, t: int| 0 <= s < t < nv.len() implies (#[trigger] nv[s]).location != (#[trigger] nv[t]).location by {
                    assert(av[s].location != av[t].location);
                }
            }
        } else {
            let file = copy_bytes(&info.location.file);
            let entry = GuardReportEntry {
                location: Location { file, line: info.location.line, column: info.location.column },
                count: 1,
                oldest_age: info.age,
            };
            proof {
                assert forall|k: int| 0 <= k < iv.take(i as int).len() implies (#[trigger] iv.take(i as int)[k]).location != l by {
                    assert(iv.take(i as int)[k] == iv[k]);
                    let r = choose|r: int| 0 <= r < av.len() && #[trigger] av[r].location == iv[k].location;
                    assert(av[r].location != l);
                }
                lemma_absent_location(iv.take(i as int), l);
            }
            agg.push(entry);
            proof {
                let e2 = entry@;
                assert(entries_view(agg@) =~= av.push(e2));
                assert(av.push(e2).drop_last() =~= av);
                let nv = entries_view(agg@);
                assert forall|r: int| 0 <= r < nv.len() implies entry_faithful(iv.take(i + 1), #[trigger] nv[r]) by {
                    if r < av.len() {
                        assert(entry_faithful(iv.take(i as int), av[r]));
                        assert(av[r].location != l);
                    }
                }
                assert forall|k: int| 0 <= k < i + 1 implies exists|r: int| 0 <= r < nv.len()
                    && #[trigger] nv[r].location == (#[trigger] iv[k]).location by {
                    if k < i {
                        let r = choose|r: int| 0 <= r < av.len() && #[trigger] av[r].location == iv[k].location;
                        assert(nv[r].location == iv[k].location);
                    } else {
                        assert(nv[av.len() as int].location == iv[k].location);
                    }
                }
                assert forall|s: int, t: int| 0 <= s < t < nv.len() implies (#[trigger] nv[s]).location != (#[trigger] nv[t]).location by {
                    if t < av.len() {
                        assert(av[s].location != av[t].location);
                    } else {
                        assert(av[s].location != l);
                    }
                }
            }
        }
        i = i + 1;
    }
    proof {
        assert(iv.take(infos@.len() as int) =~= iv);
    }
    agg
}


/// Sorted in report order.
pub open spec fn in_report_order(s: Seq<EntryView>) -> bool {
    forall|i: int, j: int| 0 <= i < j < s.len() ==> entry_before(#[trigger] s[i], #[trigger] s[j])
}

/// Inserting an entry where the ones before it precede it and the one after it
/// follows it keeps report order.
proof fn lemma_insert_sorted(sv: Seq<EntryView>, ev: EntryView, pos: int)
    requires
        in_report_order(sv),
        0 <= pos <= sv.len(),
        forall|q: int| 0 <= q < pos ==> !entry_before(ev, #[trigger] sv[q]),
        pos < sv.len() ==> entry_before(ev, sv[pos]),
        forall|q: int| 0 <= q < sv.len() ==> (#[trigger] sv[q]).location != ev.location,
    ensures
        in_report_order(sv.insert(pos, ev)),
{
    let ns = sv.insert(pos, ev);
    assert forall|a: int, b: int| 0 <= a < b < ns.len() implies entry_before(#[trigger] ns[a], #[trigger] ns[b]) by {
        if b < pos {
            assert(entry_before(sv[a], sv[b]));
        } else if b == pos {
            assert(!entry_before(ev, sv[a]));
            lemma_entry_order(sv[a], ev, ev);
        } else if a < pos {
            assert(entry_before(sv[a], sv[b - 1]));
        } else if a == pos {
            if b - 1 > pos {
                assert(entry_before(sv[pos], sv[b - 1]));
                lemma_entry_order(ev, sv[pos], sv[b - 1]);
            }
        } else {
            assert(entry_before(sv[a - 1], sv[b - 1]));
        }
    }
}

/// The entries of `agg` in report order.
fn sort_entries(agg: Vec<GuardReportEntry>) -> (r: Vec<GuardReportEntry>)
    requires
        forall|s: int, t: int| 0 <= s < t < agg@.len() ==> (#[trigger] entries_view(agg@)[s]).location != (#[trigger] entries_view(agg@)[t]).location,
    ensures
        forall|i: int| 0 <= i < r@.len() ==> entries_view(agg@).contains(#[trigger] entries_view(r@)[i]),
        forall|j: int| 0 <= j < agg@.len() ==> entries_view(r@).contains(#[trigger] entries_view(agg@)[j]),
        in_report_order(entries_view(r@)),
        entry_total(entries_view(r@)) == entry_total(entries_view(agg@)),
{
    let ghost orig = entries_view(agg@);
    let mut agg = agg;
    let mut sorted: Vec<GuardReportEntry> = Vec::new();
    proof {
        assert(entries_view(agg@) =~= orig.take(orig.len() as int));
        assert(entries_view(sorted@) =~= Seq::<EntryView>::empty());
    }
    while agg.len() > 0
        invariant
            forall|s: int, t: int| 0 <= s < t < orig.len() ==> (#[trigger] orig[s]).location != (#[trigger] orig[t]).location,
            agg@.len() <= orig.len(),
            entries_view(agg@) == orig.take(agg@.len() as int),
            forall|i: int| 0 <= i < sorted@.len() ==> orig.skip(agg@.len() as int).contains(#[trigger] entries_view(sorted@)[i]),
            forall|j: int| agg@.len() <= j < orig.len() ==> entries_view(sorted@).contains(#[trigger] orig[j]),
            in_report_order(entries_view(sorted@)),
            entry_total(entries_view(sorted@)) + entry_total(orig.take(agg@.len() as int)) == entry_total(orig),
        decreases agg@.len(),
    {
        let ghost m = agg@.len() as int;
        let ghost sv = entries_view(sorted@);
        let e = agg.pop().unwrap();
        proof {
            assert(orig.take(m)[m - 1] == orig[m - 1]);
            assert(e@ == orig[m - 1]);
            assert(entries_view(agg@) =~= orig.take(m - 1));
            assert(orig.take(m).drop_last() =~= orig.take(m - 1));
        }
        let mut pos: usize = 0;
        let mut placed = false;
        while pos < sorted.len()
            invariant
                pos <= sorted@.len(),
                sv == entries_view(sorted@),
                forall|q: int| 0 <= q < pos ==> !entry_before(e@, #[trigger] sv[q]),
                placed ==> pos < sorted@.len() && entry_before(e@, sv[pos as int]),
            ensures
                pos <= sorted@.len(),
                forall|q: int| 0 <= q < pos ==> !entry_before(e@, #[trigger] sv[q]),
                pos < sorted@.len() ==> entry_before(e@, sv[pos as int]),
            decreases sorted@.len() - pos + (if placed { 0int } else { 1int }),
        {
            proof {
                assert(sv[pos as int] == sorted@[pos as int]@);
            }
            if entry_precedes(&e, &sorted[pos]) {
                placed = true;
                break;
            }
            pos = pos + 1;
        }
        let ghost ev = e@;
        sorted.insert(pos, e);
        proof {
            let ns = entries_view(sorted@);
            assert(ns =~= sv.insert(pos as int, ev));
            lemma_total_insert(sv, pos as int, ev);
            assert forall|q: int| 0 <= q < sv.len() implies (#[trigger] sv[q]).location != ev.location by {
                assert(orig.skip(m).contains(sv[q]));
                let w = choose|w: int| 0 <= w < orig.skip(m).len() && orig.skip(m)[w] == sv[q];
                assert(orig[m + w] == sv[q]);
                assert(orig[m - 1].location != orig[m + w].location);
            }
            lemma_insert_sorted(sv, ev, pos as int);
            assert forall|i: int| 0 <= i < ns.len() implies orig.skip(m - 1).contains(#[trigger] ns[i]) by {
                if i == pos {
                    assert(orig.skip(m - 1)[0] == ev);
                } else {
                    let k = if i < pos { i } else { i - 1 };
                    assert(ns[i] == sv[k]);
                    assert(orig.skip(m).contains(sv[k]));
                    let w = choose|w: int| 0 <= w < orig.skip(m).len() && orig.skip(m)[w] == sv[k];
                    assert(orig.skip(m - 1)[w + 1] == sv[k]);
                }
            }
            assert forall|j: int| m - 1 <= j < orig.len() implies ns.contains(#[trigger] orig[j]) by {
                if j == m - 1 {
                    assert(ns[pos as int] == orig[j]);
                } else {
                    assert(sv.contains(orig[j]));
                    let i = choose|i: int| 0 <= i < sv.len() && sv[i] == orig[j];
                    if i < pos {
                        assert(ns[i] == orig[j]);
                    } else {
                        assert(ns[i + 1] == orig[j]);
                    }
                }
            }
        }
    }
    proof {
        assert(orig.take(0) =~= Seq::<EntryView>::empty());
        assert(orig.skip(0) =~= orig);
    }
    sorted
}

/// The text of decimal digit `d`.
pub open spec fn digit_text(d: nat) -> Seq<char> {
    if d == 0 { "0"@ } else if d == 1 { "1"@ } else if d == 2 { "2"@ } else if d == 3 { "3"@ }
    else if d == 4 { "4"@ } else if d == 5 { "5"@ } else if d == 6 { "6"@ } else if d == 7 { "7"@ }
    else if d == 8 { "8"@ } else { "9"@ }
}

/// The decimal notation of `n`, most significant digit first.
pub open spec fn decimal(n: nat) -> Seq<char>
    decreases n,
{
    if n < 10 {
        digit_text(n)
    } else {
        decimal(n / 10) + digit_text(n % 10)
    }
}

/// The first line of a report of `count` outstanding guards: a note that
/// there are none, or their number, with the noun in the plural unless
/// there is exactly one.
pub open spec fn headline_text(count: nat) -> Seq<char> {
    if count == 0 {
        "no outstanding guards"@
    } else if count == 1 {
        decimal(count) + " outstanding guard"@ + ":"@
    } else {
        decimal(count) + " outstanding guard"@ + "s"@ + ":"@
    }
}

/// The text of the decimal digit `d`.
fn digit_str(d: usize) -> (t: &'static str)
    requires
        d < 10,
    ensures
        t@ == digit_text(d as nat),
{
    match d {
        0 => "0",
        1 => "1",
        2 => "2",
        3 => "3",
        4 => "4",
        5 => "5",
        6 => "6",
        7 => "7",
        8 => "8",
        _ => "9",
    }
}

/// Append the decimal notation of `n` to `s`.
fn push_decimal(s: &mut String, n: usize)
    ensures
        final(s)@ == old(s)@ + decimal(n as nat),
    decreases n,
{
    if n >= 10 {
        push_decimal(s, n / 10);
        s.append(digit_str(n % 10));
        proof {
            assert(final(s)@ =~= old(s)@ + decimal(n as nat));
        }
    } else {
        s.append(digit_str(n));
    }
}

impl GuardReport {
    /// The report of the outstanding guards `infos`: one entry per location
    /// that some of them were created at, with how many were and the age of
    /// the oldest, ordered oldest first and, for equal ages, by location.
    pub fn from_infos(infos: Vec<GuardInfo>) -> (r: GuardReport)
        ensures
            is_report_of(r@, infos_view(infos@)),
            entry_total(r@) == infos@.len(),
    {
        let agg = aggregate(&infos);
        let ghost av = entries_view(agg@);
        let ghost iv = infos_view(infos@);
        let sorted = sort_entries(agg);
        let r = GuardReport { entries: sorted };
        proof {
            let rv = r@;
            assert(rv == entries_view(sorted@));
            assert forall|i: int| 0 <= i < rv.len() implies entry_faithful(iv, #[trigger] rv[i]) by {
                assert(av.contains(rv[i]));
                let j = choose|j: int| 0 <= j < av.len() && av[j] == rv[i];
                assert(entry_faithful(iv, av[j]));
            }
            assert forall|k: int| 0 <= k < iv.len() implies exists|i: int| 0 <= i < rv.len() && #[trigger] rv[i].location == (#[trigger] iv[k]).location by {
                let j = choose|j: int| 0 <= j < av.len() && #[trigger] av[j].location == iv[k].location;
                assert(rv.contains(av[j]));
                let i = choose|i: int| 0 <= i < rv.len() && rv[i] == av[j];
                assert(rv[i].location == iv[k].location);
            }
        }
        r
    }

    /// The first line of the report's text: "no outstanding guards", or the
    /// number of outstanding guards followed by "outstanding guard" or
    /// "outstanding guards" and a colon.
    pub fn headline(&self) -> (s: String)
        requires
            entry_total(self@) <= usize::MAX,
        ensures
            s@ == headline_text(entry_total(self@)),
    {
        let count = self.guard_count();
        if count == 0 {
            return String::from_str("no outstanding guards");
        }
        let mut s = String::new();
        push_decimal(&mut s, count);
        s.append(" outstanding guard");
        if count != 1 {
            s.append("s");
        }
        s.append(":");
        proof {
            assert(s@ =~= headline_text(entry_total(self@)));
        }
        s
    }

    /// The total number of outstanding guards in this report.
    pub fn guard_count(&self) -> (n: usize)
        requires
            entry_total(self@) <= usize::MAX,
        ensures
            n == entry_total(self@),
    {
        let mut total: usize = 0;
        let mut i: usize = 0;
        while i < self.entries.len()
            invariant
                i <= self.entries@.len(),
                entry_total(self@) <= usize::MAX,
                total == entry_total(self@.take(i as int)),
            decreases self.entries@.len() - i,
        {
            proof {
                assert(self@.take(i + 1).drop_last() =~= self@.take(i as int));
                lemma_total_prefix(self@, i + 1);
                assert(self@[i as int] == self.entries@[i as int]@);
            }
            total = total + self.entries[i].count;
            i = i + 1;
        }
        proof {
            assert(self@.take(i as int) =~= self@);
        }
        total
    }

    /// Whether there were no outstanding guards when this report was taken.
    pub fn is_empty(&self) -> (r: bool)
        ensures
            r == (self@.len() == 0),
    {
        self.entries.len() == 0
    }

    /// The entries in this report, one per distinct creation site with at
    /// least one outstanding guard, oldest first.
    pub fn entries(&self) -> (r: &[GuardReportEntry])
        ensures
            entries_view(r@) == self@,
    {
        self.entries.as_slice()
    }

    /// Take the entries of this report out, oldest first.
    pub fn into_entries(self) -> (r: Vec<GuardReportEntry>)
        ensures
            entries_view(r@) == self@,
    {
        self.entries
    }
}

pub proof fn lemma_total_prefix(s: Seq<EntryView>, k: int)
    requires
        0 <= k <= s.len(),
    ensures
        entry_total(s.take(k)) <= entry_total(s),
    decreases s.len() - k,
{
    if k < s.len() {
        lemma_total_prefix(s.drop_last(), k);
        assert(s.drop_last().take(k) =~= s.take(k));
    } else {
        assert(s.take(k) =~= s);
    }
}

impl GuardReportEntry {
    /// The source location at which these guards were created, or from which
    /// they were cloned.
    pub fn location(&self) -> (r: &Location)
        ensures
            r@ == self@.location,
    {
        &self.location
    }

    /// The number of outstanding guards created at this location.
    pub fn count(&self) -> (r: usize)
        ensures
            r == self@.count,
    {
        self.count
    }

    /// The age of the oldest outstanding guard created at this location, in
    /// nanoseconds, when it is known.
    pub fn oldest_age(&self) -> (r: Option<u128>)
        ensures
            r == self@.oldest_age,
    {
        self.oldest_age
    }
}

/// Byte strings in lexicographic order, as `str` orders them.
pub open spec fn bytes_lt(a: Seq<u8>, b: Seq<u8>) -> bool
    decreases a.len(),
{
    if a.len() == 0 {
        b.len() > 0
    } else if b.len() == 0 {
        false
    } else if a[0] != b[0] {
        a[0] < b[0]
    } else {
        bytes_lt(a.drop_first(), b.drop_first())
    }
}

/// Locations in order of file, then line, then column.
pub open spec fn location_lt(a: LocationView, b: LocationView) -> bool {
    ||| bytes_lt(a.file, b.file)
    ||| (a.file == b.file && a.line < b.line)
    ||| (a.file == b.file && a.line == b.line && a.column < b.column)
}

pub proof fn lemma_bytes_lt_irreflexive(a: Seq<u8>)
    ensures
        !bytes_lt(a, a),
    decreases a.len(),
{
    if a.len() > 0 {
        lemma_bytes_lt_irreflexive(a.drop_first());
    }
}

pub proof fn lemma_bytes_lt_asymmetric(a: Seq<u8>, b: Seq<u8>)
    ensures
        bytes_lt(a, b) ==> !bytes_lt(b, a),
    decreases a.len(),
{
    if a.len() > 0 && b.len() > 0 && a[0] == b[0] {
        lemma_bytes_lt_asymmetric(a.drop_first(), b.drop_first());
    }
}

pub proof fn lemma_bytes_lt_transitive(a: Seq<u8>, b: Seq<u8>, c: Seq<u8>)
    requires
        bytes_lt(a, b),
        bytes_lt(b, c),
    ensures
        bytes_lt(a, c),
    decreases a.len(),
{
    if a.len() > 0 && b.len() > 0 && c.len() > 0 && a[0] == b[0] && b[0] == c[0] {
        lemma_bytes_lt_transitive(a.drop_first(), b.drop_first(), c.drop_first());
    }
}

pub proof fn lemma_bytes_lt_total(a: Seq<u8>, b: Seq<u8>)
    ensures
        a != b ==> bytes_lt(a, b) || bytes_lt(b, a),
    decreases a.len(),
{
    if a.len() > 0 && b.len() > 0 && a[0] == b[0] {
        lemma_bytes_lt_total(a.drop_first(), b.drop_first());
        if a.drop_first() == b.drop_first() {
            assert(a =~= seq![a[0]] + a.drop_first());
            assert(b =~= seq![b[0]] + b.drop_first());
        }
    } else if a.len() == 0 && b.len() == 0 {
        assert(a =~= b);
    }
}

/// Whether two byte strings are equal.
pub fn bytes_equal(a: &Vec<u8>, b: &Vec<u8>) -> (r: bool)
    ensures
        r == (a@ == b@),
{
    if a.len() != b.len() {
        return false;
    }
    let mut i: usize = 0;
    while i < a.len()
        invariant
            a.len() == b.len(),
            i <= a.len(),
            forall|k: int| 0 <= k < i ==> a@[k] == b@[k],
        decreases a.len() - i,
    {
        if a[i] != b[i] {
            return false;
        }
        i = i + 1;
    }
    assert(a@ =~= b@);
    true
}

/// Whether `a` comes before `b` in lexicographic byte order.
pub fn bytes_less(a: &Vec<u8>, b: &Vec<u8>) -> (r: bool)
    ensures
        r == bytes_lt(a@, b@),
{
    let mut i: usize = 0;
    proof {
        assert(a@.skip(0) =~= a@);
        assert(b@.skip(0) =~= b@);
    }
    while i < a.len() && i < b.len()
        invariant
            i <= a.len(),
            i <= b.len(),
            bytes_lt(a@, b@) == bytes_lt(a@.skip(i as int), b@.skip(i as int)),
        decreases a.len() - i,
    {
        if a[i] != b[i] {
            proof {
                assert(a@.skip(i as int)[0] == a@[i as int]);
                assert(b@.skip(i as int)[0] == b@[i as int]);
            }
            return a[i] < b[i];
        }
        proof {
            assert(a@.skip(i as int).drop_first() =~= a@.skip(i + 1));
            assert(b@.skip(i as int).drop_first() =~= b@.skip(i + 1));
        }
        i = i + 1;
    }
    i < b.len()
}

/// Whether two locations are the same.
pub fn same_location(a: &Location, b: &Location) -> (r: bool)
    ensures
        r == (a@ == b@),
{
    a.line == b.line && a.column == b.column && bytes_equal(&a.file, &b.file)
}

/// Whether location `a` comes before location `b`.
pub fn location_less(a: &Location, b: &Location) -> (r: bool)
    ensures
        r == location_lt(a@, b@),
{
    if bytes_less(&a.file, &b.file) {
        return true;
    }
    if !bytes_equal(&a.file, &b.file) {
        return false;
    }
    a.line < b.line || (a.line == b.line && a.column < b.column)
}

/// A copy of a byte string.
pub fn copy_bytes(v: &Vec<u8>) -> (r: Vec<u8>)
    ensures
        r@ == v@,
{
    let mut r: Vec<u8> = Vec::new();
    let mut i: usize = 0;
    while i < v.len()
        invariant
            i <= v.len(),
            r@ =~= v@.take(i as int),
        decreases v.len() - i,
    {
        r.push(v[i]);
        i = i + 1;
    }
    assert(v@.take(v.len() as int) =~= v@);
    r
}

} // verus!
