//! Segment file names and the split of a directory listing into hint and data
//! segments.
use vstd::prelude::*;
use vstd::slice::slice_subrange;

verus! {

/// What a segment file holds.
#[derive(Clone, Copy, Debug, PartialEq, Eq, Structural)]
pub enum SegmentKind {
    Hint,
    Data,
}

pub open spec fn is_digit(b: u8) -> bool {
    48 <= b <= 57
}

/// Length of the run of decimal digits that starts `s`.
pub open spec fn digit_run(s: Seq<u8>) -> nat
    decreases s.len(),
{
    if s.len() > 0 && is_digit(s[0]) {
        1 + digit_run(s.drop_first())
    } else {
        0
    }
}

/// The number that a string of decimal digits spells.
pub open spec fn decimal_value(s: Seq<u8>) -> nat
    decreases s.len(),
{
    if s.len() == 0 {
        0
    } else {
        decimal_value(s.drop_last()) * 10 + (s.last() - 48) as nat
    }
}

/// `hint` names a hint segment; `data` and `log` name data segments.
pub open spec fn extension_kind(ext: Seq<u8>) -> Option<SegmentKind> {
    if ext == seq![104u8, 105u8, 110u8, 116u8] {
        Some(SegmentKind::Hint)
    } else if ext == seq![100u8, 97u8, 116u8, 97u8] || ext == seq![108u8, 111u8, 103u8] {
        Some(SegmentKind::Data)
    } else {
        None
    }
}

/// The id and kind that a file name gives: a stem of decimal digits whose value
/// fits in a `u64`, a dot, and a known extension. Any other name is no segment.
pub open spec fn segment_name(name: Seq<u8>) -> Option<(u64, SegmentKind)> {
    let n = digit_run(name) as int;
    let stem = name.take(n);
    let ext = name.skip(n + 1);
    if 0 < n < name.len() && name[n] == 46 && decimal_value(stem) <= u64::MAX
        && extension_kind(ext) is Some {
        Some((decimal_value(stem) as u64, extension_kind(ext)->Some_0))
    } else {
        None
    }
}

proof fn lemma_digit_run(s: Seq<u8>, i: int)
    requires
        0 <= i <= s.len(),
        forall|j: int| 0 <= j < i ==> is_digit(#[trigger] s[j]),
        i == s.len() || !is_digit(s[i]),
    ensures
        digit_run(s) == i,
    decreases i,
{
    if i > 0 {
        lemma_digit_run(s.drop_first(), i - 1);
    }
}

fn extension_kind_of(ext: &[u8]) -> (r: Option<SegmentKind>)
    ensures
        r == extension_kind(ext@),
{
    let n = ext.len();
    if n == 4 && ext[0] == 104 && ext[1] == 105 && ext[2] == 110 && ext[3] == 116 {
        assert(ext@ =~= seq![104u8, 105u8, 110u8, 116u8]);
        Some(SegmentKind::Hint)
    } else if n == 4 && ext[0] == 100 && ext[1] == 97 && ext[2] == 116 && ext[3] == 97 {
        assert(ext@ =~= seq![100u8, 97u8, 116u8, 97u8]);
        Some(SegmentKind::Data)
    } else if n == 3 && ext[0] == 108 && ext[1] == 111 && ext[2] == 103 {
        assert(ext@ =~= seq![108u8, 111u8, 103u8]);
        Some(SegmentKind::Data)
    } else {
        None
    }
}

/// Reads the segment id and kind out of a file name; `None` for any other file.
pub fn parse_segment_name(name: &[u8]) -> (r: Option<(u64, SegmentKind)>)
    ensures
        r == segment_name(name@),
{
    let n = name.len();
    let mut i: usize = 0;
    let mut value: u64 = 0;
    let mut too_big = false;
    while i < n && 48 <= name[i] && name[i] <= 57
        invariant
            n == name@.len(),
            i <= n,
            forall|j: int| 0 <= j < i ==> is_digit(#[trigger] name@[j]),
            too_big ==> decimal_value(name@.take(i as int)) > u64::MAX,
            !too_big ==> value == decimal_value(name@.take(i as int)),
        decreases n - i,
    {
        let d = (name[i] - 48) as u64;
        assert(name@.take(i + 1).drop_last() =~= name@.take(i as int));
        assert(decimal_value(name@.take(i + 1)) == decimal_value(name@.take(i as int)) * 10 + d);
        if !too_big {
            if value > (u64::MAX - d) / 10 {
                assert(value * 10 + d > u64::MAX) by (nonlinear_arith)
                    requires
                        value > (u64::MAX - d) / 10,
                        d <= 9,
                ;
                too_big = true;
            } else {
                assert(value * 10 + d <= u64::MAX) by (nonlinear_arith)
                    requires
                        value <= (u64::MAX - d) / 10,
                        d <= 9,
                ;
                value = value * 10 + d;
            }
        }
        i = i + 1;
    }
    proof {
        lemma_digit_run(name@, i as int);
    }
    if i == 0 || i >= n || name[i] != 46 || too_big {
        return None;
    }
    let ext = slice_subrange(name, i + 1, n);
    assert(ext@ =~= name@.skip(i + 1));
    match extension_kind_of(ext) {
        Some(kind) => Some((value, kind)),
        None => None,
    }
}

pub open spec fn pow10(n: nat) -> nat
    decreases n,
{
    if n == 0 {
        1
    } else {
        10 * pow10((n - 1) as nat)
    }
}

proof fn lemma_decimal_prepend(d: u8, s: Seq<u8>)
    requires
        is_digit(d),
    ensures
        decimal_value(seq![d] + s) == (d - 48) * pow10(s.len()) + decimal_value(s),
    decreases s.len(),
{
    let t = seq![d] + s;
    if s.len() == 0 {
        assert(t.drop_last() =~= Seq::<u8>::empty());
        assert(t.last() == d);
        assert(decimal_value(t) == decimal_value(t.drop_last()) * 10 + (t.last() - 48) as nat);
        assert(decimal_value(Seq::<u8>::empty()) == 0);
        assert(pow10(0) == 1);
    } else {
        assert(t.drop_last() =~= seq![d] + s.drop_last());
        assert(t.last() == s.last());
        assert(decimal_value(t) == decimal_value(t.drop_last()) * 10 + (t.last() - 48) as nat);
        assert(decimal_value(s) == decimal_value(s.drop_last()) * 10 + (s.last() - 48) as nat);
        assert(pow10(s.len()) == 10 * pow10((s.len() - 1) as nat));
        lemma_decimal_prepend(d, s.drop_last());
        let a = (d - 48) as int;
        let p = pow10((s.len() - 1) as nat) as int;
        let v = decimal_value(s.drop_last()) as int;
        let l = (s.last() - 48) as nat as int;
        assert((a * p + v) * 10 + l == a * (10 * p) + (v * 10 + l)) by (nonlinear_arith);
        assert(decimal_value(t) == (a * p + v) * 10 + l);
        assert(decimal_value(s) == v * 10 + l);
    }
}

proof fn lemma_pow10_monotone(a: nat, b: nat)
    requires
        a <= b,
    ensures
        pow10(a) <= pow10(b),
    decreases b,
{
    if a < b {
        lemma_pow10_monotone(a, (b - 1) as nat);
    }
}

/// A string of `n` digits spells a number below `10^n`.
proof fn lemma_decimal_upper(s: Seq<u8>)
    requires
        forall|j: int| 0 <= j < s.len() ==> is_digit(#[trigger] s[j]),
    ensures
        decimal_value(s) < pow10(s.len()),
    decreases s.len(),
{
    if s.len() > 0 {
        let init = s.drop_last();
        assert forall|j: int| 0 <= j < init.len() implies is_digit(#[trigger] init[j]) by {
            assert(init[j] == s[j]);
        }
        lemma_decimal_upper(init);
        assert(is_digit(s[s.len() - 1]));
        let v = decimal_value(init) as int;
        let p = pow10(init.len()) as int;
        let l = (s.last() - 48) as nat as int;
        assert(l <= 9);
        assert(v * 10 + l < 10 * p) by (nonlinear_arith)
            requires
                v < p,
                l <= 9,
        ;
    }
}

/// A string of digits that starts with a nonzero one spells at least
/// `10^(n-1)`.
proof fn lemma_decimal_lower(s: Seq<u8>)
    requires
        s.len() > 0,
        is_digit(s[0]),
        s[0] != 48,
    ensures
        decimal_value(s) >= pow10((s.len() - 1) as nat),
{
    let rest = s.drop_first();
    assert(s =~= seq![s[0]] + rest);
    lemma_decimal_prepend(s[0], rest);
    let a = (s[0] - 48) as int;
    let p = pow10(rest.len()) as int;
    assert(a * p >= p) by (nonlinear_arith)
        requires
            a >= 1,
            p >= 0,
    ;
}

/// The extension that names a segment of `kind`.
pub open spec fn kind_extension(kind: SegmentKind) -> Seq<u8> {
    match kind {
        SegmentKind::Hint => seq![104u8, 105u8, 110u8, 116u8],
        SegmentKind::Data => seq![100u8, 97u8, 116u8, 97u8],
    }
}

/// The file name of segment `id`: its decimal digits, zero-padded to eight,
/// then `.hint` or `.data`.
pub fn segment_file_name(id: u64, kind: SegmentKind) -> (r: Vec<u8>)
    ensures
        segment_name(r@) == Some((id, kind)),
        ({
            let d = r@.len() - 5;
            &&& 8 <= d <= 20
            &&& forall|j: int| 0 <= j < d ==> is_digit(#[trigger] r@[j])
            &&& decimal_value(r@.take(d)) == id
            &&& id < 100000000 ==> d == 8
            &&& id >= 100000000 ==> r@[0] != 48
            &&& r@.skip(d) == seq![46u8] + kind_extension(kind)
        }),
{
    let mut digits: Vec<u8> = Vec::new();
    let mut n: u64 = id;
    let mut i: usize = 0;
    assert(pow10(0) == 1);
    assert(decimal_value(digits@) == 0);
    while i < 20
        invariant
            i <= 20,
            digits@.len() == i,
            forall|j: int| 0 <= j < i ==> is_digit(#[trigger] digits@[j]),
            id == n * pow10(i as nat) + decimal_value(digits@),
        decreases 20 - i,
    {
        let d = (n % 10) as u8 + 48;
        let ghost before = digits@;
        digits.insert(0, d);
        proof {
            assert(digits@ =~= seq![d] + before);
            lemma_decimal_prepend(d, before);
            let p = pow10(i as nat) as int;
            assert(pow10((i + 1) as nat) == 10 * p);
            assert(n as int * p == (n as int / 10) * (10 * p) + (n as int % 10) * p) by (nonlinear_arith);
            assert forall|j: int| 0 <= j < i + 1 implies is_digit(#[trigger] digits@[j]) by {
                if j > 0 {
                    assert(digits@[j] == before[j - 1]);
                }
            }
        }
        n = n / 10;
        i = i + 1;
    }
    proof {
        reveal_with_fuel(pow10, 21);
        assert(pow10(20) == 100000000000000000000nat);
        if n > 0 {
            assert(n * pow10(20) >= pow10(20)) by (nonlinear_arith)
                requires n > 0;
        }
    }
    assert(decimal_value(digits@) == id);
    assert(digits@.skip(0) =~= digits@);
    let mut start: usize = 0;
    while start < 12 && digits[start] == 48
        invariant
            start <= 12,
            digits@.len() == 20,
            forall|j: int| 0 <= j < 20 ==> is_digit(#[trigger] digits@[j]),
            decimal_value(digits@.skip(start as int)) == id,
        decreases 12 - start,
    {
        proof {
            let rest = digits@.skip(start + 1);
            assert(digits@.skip(start as int) =~= seq![48u8] + rest);
            lemma_decimal_prepend(48u8, rest);
        }
        start = start + 1;
    }
    let mut name: Vec<u8> = Vec::new();
    let mut j: usize = start;
    while j < 20
        invariant
            start <= j <= 20,
            digits@.len() == 20,
            name@ == digits@.subrange(start as int, j as int),
        decreases 20 - j,
    {
        name.push(digits[j]);
        proof {
            assert(name@ =~= digits@.subrange(start as int, j + 1));
        }
        j = j + 1;
    }
    let ghost stem = name@;
    assert(stem =~= digits@.skip(start as int));
    name.push(46);
    match kind {
        SegmentKind::Hint => {
            name.push(104);
            name.push(105);
            name.push(110);
            name.push(116);
        },
        SegmentKind::Data => {
            name.push(100);
            name.push(97);
            name.push(116);
            name.push(97);
        },
    }
    proof {
        let m = stem.len() as int;
        assert(name@ =~= stem + seq![46u8] + kind_extension(kind));
        assert forall|x: int| 0 <= x < m implies is_digit(#[trigger] name@[x]) by {
            assert(name@[x] == digits@[start + x]);
        }
        lemma_digit_run(name@, m);
        assert(name@.take(m) =~= stem);
        assert(name@.skip(m + 1) =~= kind_extension(kind));
        assert(name@.skip(name@.len() - 5) =~= seq![46u8] + kind_extension(kind));
        reveal_with_fuel(pow10, 9);
        assert(pow10(8) == 100000000);
        if start < 12 {
            assert(stem[0] == digits@[start as int]);
            lemma_decimal_lower(stem);
            lemma_pow10_monotone(8, (m - 1) as nat);
        } else {
            assert forall|x: int| 0 <= x < m implies is_digit(#[trigger] stem[x]) by {
                assert(stem[x] == digits@[start + x]);
            }
            lemma_decimal_upper(stem);
            if id >= 100000000 {
                assert(name@[0] == stem[0]);
            }
        }
    }
    name
}

pub open spec fn strictly_ascending(s: Seq<u64>) -> bool {
    forall|i: int, j: int| 0 <= i < j < s.len() ==> s[i] < s[j]
}

/// The ids of the files of one kind among `names`.
pub open spec fn named_ids(names: Seq<Seq<u8>>, kind: SegmentKind) -> Set<u64> {
    Set::new(
        |id: u64| exists|i: int| 0 <= i < names.len() && segment_name(names[i]) == Some((id, kind)),
    )
}

/// Which segments recovery reads: every hint segment, and every data segment
/// whose id has no hint segment. Both lists ascend strictly.
pub open spec fn planned(names: Seq<Seq<u8>>, hint_ids: Seq<u64>, data_ids: Seq<u64>) -> bool {
    &&& strictly_ascending(hint_ids)
    &&& strictly_ascending(data_ids)
    &&& hint_ids.to_set() == named_ids(names, SegmentKind::Hint)
    &&& data_ids.to_set() == named_ids(names, SegmentKind::Data).difference(
        named_ids(names, SegmentKind::Hint),
    )
}

/// The segments of a directory, as recovery reads them.
pub struct SegmentPlan {
    pub hint_ids: Vec<u64>,
    pub data_ids: Vec<u64>,
}

/// One past the largest id of two ascending id lists, `0` when both are empty,
/// `None` when the largest is `u64::MAX`.
pub open spec fn first_active_id(hint_ids: Seq<u64>, data_ids: Seq<u64>) -> Option<u64> {
    if hint_ids.len() == 0 && data_ids.len() == 0 {
        Some(0)
    } else {
        let max = if hint_ids.len() == 0 {
            data_ids.last()
        } else if data_ids.len() == 0 {
            hint_ids.last()
        } else if hint_ids.last() < data_ids.last() {
            data_ids.last()
        } else {
            hint_ids.last()
        };
        if max == u64::MAX {
            None
        } else {
            Some((max + 1) as u64)
        }
    }
}

impl SegmentPlan {
    /// Id of the first active segment: one past the largest id in the plan, or
    /// `0` when there is none; `None` when the largest id is `u64::MAX`.
    pub fn next_segment_id(&self) -> (r: Option<u64>)
        requires
            strictly_ascending(self.hint_ids@),
            strictly_ascending(self.data_ids@),
        ensures
            r == first_active_id(self.hint_ids@, self.data_ids@),
            match r {
                Some(x) => {
                    &&& forall|id: u64|
                        self.hint_ids@.contains(id) || self.data_ids@.contains(id) ==> id < x
                    &&& x == 0 ==> self.hint_ids@.len() == 0 && self.data_ids@.len() == 0
                    &&& x > 0 ==> self.hint_ids@.contains((x - 1) as u64)
                        || self.data_ids@.contains((x - 1) as u64)
                },
                None => self.hint_ids@.contains(u64::MAX) || self.data_ids@.contains(u64::MAX),
            },
    {
        let nh = self.hint_ids.len();
        let nd = self.data_ids.len();
        if nh == 0 && nd == 0 {
            return Some(0);
        }
        let max = if nh == 0 {
            self.data_ids[nd - 1]
        } else if nd == 0 {
            self.hint_ids[nh - 1]
        } else if self.hint_ids[nh - 1] < self.data_ids[nd - 1] {
            self.data_ids[nd - 1]
        } else {
            self.hint_ids[nh - 1]
        };
        assert(self.hint_ids@.contains(max) || self.data_ids@.contains(max)) by {
            if nh > 0 && max == self.hint_ids@[nh - 1] {
                assert(self.hint_ids@.contains(max));
            } else {
                assert(self.data_ids@[nd - 1] == max);
                assert(self.data_ids@.contains(max));
            }
        }
        assert forall|id: u64| self.hint_ids@.contains(id) || self.data_ids@.contains(id) implies id
            <= max by {
            if self.hint_ids@.contains(id) {
                let k = choose|k: int| 0 <= k < nh && self.hint_ids@[k] == id;
                assert(k == nh - 1 || self.hint_ids@[k] < self.hint_ids@[nh - 1]);
            } else {
                let k = choose|k: int| 0 <= k < nd && self.data_ids@[k] == id;
                assert(k == nd - 1 || self.data_ids@[k] < self.data_ids@[nd - 1]);
            }
        }
        if max == u64::MAX {
            None
        } else {
            Some(max + 1)
        }
    }
}

fn contains_id(v: &Vec<u64>, x: u64) -> (r: bool)
    ensures
        r == v@.contains(x),
{
    let mut i: usize = 0;
    while i < v.len()
        invariant
            i <= v@.len(),
            forall|j: int| 0 <= j < i ==> v@[j] != x,
        decreases v@.len() - i,
    {
        if v[i] == x {
            return true;
        }
        i = i + 1;
    }
    false
}

fn insert_sorted(v: &mut Vec<u64>, x: u64)
    requires
        strictly_ascending(old(v)@),
    ensures
        strictly_ascending(final(v)@),
        final(v)@.to_set() == old(v)@.to_set().insert(x),
{
    let mut i: usize = 0;
    while i < v.len() && v[i] < x
        invariant
            i <= v@.len(),
            forall|j: int| 0 <= j < i ==> v@[j] < x,
        decreases v@.len() - i,
    {
        i = i + 1;
    }
    if i < v.len() && v[i] == x {
        assert(v@.to_set() =~= v@.to_set().insert(x)) by {
            assert(v@.contains(x));
        }
        return;
    }
    let ghost before = v@;
    v.insert(i, x);
    proof {
        assert(v@ == before.insert(i as int, x));
        assert forall|a: int, b: int| 0 <= a < b < v@.len() implies v@[a] < v@[b] by {
            if b < i {
            } else if b == i {
            } else if a < i {
                assert(before[a] < x);
                assert(before[i as int] > x);
                assert(before[i as int] <= before[b - 1]);
            } else if a == i {
                assert(before[i as int] > x);
                assert(before[i as int] <= before[b - 1]);
            } else {
            }
        }
        assert forall|y: u64| v@.to_set().contains(y) <==> before.to_set().insert(x).contains(y) by {
            if v@.contains(y) {
                let k = choose|k: int| 0 <= k < v@.len() && v@[k] == y;
                if k < i {
                    assert(before[k] == y);
                } else if k > i {
                    assert(before[k - 1] == y);
                }
            }
            if before.contains(y) {
                let k = choose|k: int| 0 <= k < before.len() && before[k] == y;
                if k < i {
                    assert(v@[k] == y);
                } else {
                    assert(v@[k + 1] == y);
                }
            }
            if y == x {
                assert(v@[i as int] == x);
            }
        }
        assert(v@.to_set() =~= before.to_set().insert(x));
    }
}

/// Splits a directory listing into the hint and data segments that recovery
/// reads, preferring a hint segment over the data segment with the same id.
pub fn partition_segment_names(names: &Vec<Vec<u8>>) -> (r: SegmentPlan)
    ensures
        planned(names@.map_values(|n: Vec<u8>| n@), r.hint_ids@, r.data_ids@),
{
    let ghost ns = names@.map_values(|n: Vec<u8>| n@);
    let mut hints: Vec<u64> = Vec::new();
    let mut all_data: Vec<u64> = Vec::new();
    let mut i: usize = 0;
    while i < names.len()
        invariant
            ns == names@.map_values(|n: Vec<u8>| n@),
            i <= names@.len(),
            strictly_ascending(hints@),
            strictly_ascending(all_data@),
            hints@.to_set() == named_ids(ns.take(i as int), SegmentKind::Hint),
            all_data@.to_set() == named_ids(ns.take(i as int), SegmentKind::Data),
        decreases names@.len() - i,
    {
        let parsed = parse_segment_name(names[i].as_slice());
        let ghost h0 = hints@.to_set();
        let ghost d0 = all_data@.to_set();
        match parsed {
            Some((id, SegmentKind::Hint)) => insert_sorted(&mut hints, id),
            Some((id, SegmentKind::Data)) => insert_sorted(&mut all_data, id),
            None => {},
        }
        proof {
            let t0 = ns.take(i as int);
            let t1 = ns.take(i + 1);
            assert(t1[i as int] == names@[i as int]@);
            assert forall|kind: SegmentKind, id: u64|
                named_ids(t1, kind).contains(id) <==> (named_ids(t0, kind).contains(id) || segment_name(
                    t1[i as int],
                ) == Some((id, kind))) by {
                if named_ids(t1, kind).contains(id) {
                    let k = choose|k: int|
                        0 <= k < t1.len() && segment_name(t1[k]) == Some((id, kind));
                    if k < i {
                        assert(t0[k] == t1[k]);
                    }
                }
                if named_ids(t0, kind).contains(id) {
                    let k = choose|k: int|
                        0 <= k < t0.len() && segment_name(t0[k]) == Some((id, kind));
                    assert(t1[k] == t0[k]);
                }
            }
            assert(hints@.to_set() =~= named_ids(t1, SegmentKind::Hint));
            assert(all_data@.to_set() =~= named_ids(t1, SegmentKind::Data));
        }
        i = i + 1;
    }
    assert(ns.take(names@.len() as int) =~= ns);
    let mut data: Vec<u64> = Vec::new();
    let mut j: usize = 0;
    while j < all_data.len()
        invariant
            j <= all_data@.len(),
            strictly_ascending(all_data@),
            strictly_ascending(data@),
            forall|k: int| 0 <= k < data@.len() ==> exists|m: int| 0 <= m < j && all_data@[m] == #[trigger] data@[k],
            data@.to_set() == all_data@.take(j as int).to_set().difference(hints@.to_set()),
        decreases all_data@.len() - j,
    {
        let id = all_data[j];
        let ghost before = data@;
        if !contains_id(&hints, id) {
            data.push(id);
            proof {
                assert forall|a: int, b: int| 0 <= a < b < data@.len() implies data@[a] < data@[b] by {
                    if b == data@.len() - 1 {
                        let m = choose|m: int| 0 <= m < j && all_data@[m] == before[a];
                    }
                }
                assert forall|k: int| 0 <= k < data@.len() implies exists|m: int| 0 <= m < j + 1 && all_data@[m] == #[trigger] data@[k] by {
                    if k == data@.len() - 1 {
                        assert(all_data@[j as int] == data@[k]);
                    } else {
                        let m = choose|m: int| 0 <= m < j && all_data@[m] == before[k];
                        assert(all_data@[m] == data@[k]);
                    }
                }
            }
        } else {
            proof {
                assert forall|k: int| 0 <= k < data@.len() implies exists|m: int| 0 <= m < j + 1 && all_data@[m] == #[trigger] data@[k] by {
                    let m = choose|m: int| 0 <= m < j && all_data@[m] == before[k];
                    assert(all_data@[m] == data@[k]);
                }
            }
        }
        proof {
            let t0 = all_data@.take(j as int);
            let t1 = all_data@.take(j + 1);
            assert forall|y: u64| t1.to_set().contains(y) <==> (t0.to_set().contains(y) || y == id) by {
                if t1.contains(y) {
                    let k = choose|k: int| 0 <= k < t1.len() && t1[k] == y;
                    if k < j {
                        assert(t0[k] == y);
                    }
                }
                if t0.contains(y) {
                    let k = choose|k: int| 0 <= k < t0.len() && t0[k] == y;
                    assert(t1[k] == y);
                }
                if y == id {
                    assert(t1[j as int] == y);
                }
            }
            assert forall|y: u64| data@.to_set().contains(y) <==> before.to_set().contains(y) || (y == id && !hints@.to_set().contains(id)) by {
                if data@.contains(y) {
                    let k = choose|k: int| 0 <= k < data@.len() && data@[k] == y;
                    if k < before.len() {
                        assert(before[k] == y);
                    }
                }
                if before.contains(y) {
                    let k = choose|k: int| 0 <= k < before.len() && before[k] == y;
                    assert(data@[k] == y);
                }
                if y == id && !hints@.to_set().contains(id) {
                    assert(data@[data@.len() - 1] == id);
                }
            }
            assert(before.to_set() == t0.to_set().difference(hints@.to_set()));
            assert forall|y: u64| data@.to_set().contains(y) <==> t1.to_set().difference(hints@.to_set()).contains(y) by {
                assert(t1.to_set().contains(y) <==> (t0.to_set().contains(y) || y == id));
                assert(before.to_set().contains(y) <==> (t0.to_set().contains(y) && !hints@.to_set().contains(y)));
            }
            assert(data@.to_set() =~= t1.to_set().difference(hints@.to_set()));
        }
        j = j + 1;
    }
    assert(all_data@.take(all_data@.len() as int) =~= all_data@);
    SegmentPlan { hint_ids: hints, data_ids: data }
}

} // verus!
