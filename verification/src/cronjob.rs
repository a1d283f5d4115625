//! Five-field cron expressions: parsing into explicit value sets and
//! next-fire computation over calendar instants.

use vstd::prelude::*;

use crate::datetime::DateTime;
use crate::datetime::YEAR_MAX;
use crate::datetime::spec_days_in_month;
use crate::text::all_digits;
use crate::text::digits_value;
use crate::text::dec_digits;
use crate::text::append_u32;
use crate::text::parse_u32_exec;
use crate::text::parse_u32_s;
use crate::text::fields;
use crate::text::spec_fields;
use crate::text::spec_split;
use crate::text::split_on;
use crate::text::str_eq;

verus! {

/// A strictly ascending sequence of values.
pub open spec fn strictly_sorted(s: Seq<u32>) -> bool {
    forall|i: int, j: int| 0 <= i < j < s.len() ==> s[i] < s[j]
}

/// All values between `min` and `max`.
pub open spec fn full_range(min: u32, max: u32) -> Set<u32> {
    Set::new(|v: u32| min <= v && v <= max)
}

/// The step drawn from the `/`-separated parts of an atom; one by default.
pub open spec fn atom_step(parts: Seq<Seq<char>>) -> Result<u32, Seq<char>> {
    if parts.len() >= 2 {
        match parse_u32_s(parts[1]) {
            Some(v) => if v == 0 {
                Err("Invalid step number"@)
            } else {
                Ok(v)
            },
            None => Err("Invalid step number"@),
        }
    } else {
        Ok(1u32)
    }
}

/// The bounds drawn from the interval part of an atom.
pub open spec fn atom_bounds(interval: Seq<char>, min: u32, max: u32) -> Result<
    (u32, u32),
    Seq<char>,
> {
    if interval == seq!['*'] {
        Ok((min, max))
    } else {
        let bounds = spec_split(interval, '-');
        match parse_u32_s(bounds[0]) {
            None => Err("Invalid number"@),
            Some(b) => if bounds.len() >= 2 {
                match parse_u32_s(bounds[1]) {
                    None => Err("Invalid number in end of interval"@),
                    Some(e) => Ok((b, e)),
                }
            } else {
                Ok((b, b))
            },
        }
    }
}

/// The values covered by one comma-separated atom of a field, or the
/// error its parse reports.
pub open spec fn spec_parse_atom(atom: Seq<char>, min: u32, max: u32) -> Result<
    Set<u32>,
    Seq<char>,
> {
    let parts = spec_split(atom, '/');
    match atom_step(parts) {
        Err(e) => Err(e),
        Ok(step) => match atom_bounds(parts[0], min, max) {
            Err(e) => Err(e),
            Ok((begin, end)) => if begin < min || max < begin {
                Err("Invalid range in timer spec"@)
            } else if end < min || max < end {
                Err("Invalid range in timer spec"@)
            } else if end < begin {
                Err("Interval end < begin"@)
            } else {
                Ok(Set::new(|v: u32| begin <= v && v <= end && v % step == begin % step))
            },
        },
    }
}

/// The union over a list of atoms; the first error wins.
pub open spec fn spec_parse_atoms(atoms: Seq<Seq<char>>, min: u32, max: u32) -> Result<
    Set<u32>,
    Seq<char>,
>
    decreases atoms.len(),
{
    if atoms.len() == 0 {
        Ok(Set::empty())
    } else {
        match spec_parse_atom(atoms[0], min, max) {
            Err(e) => Err(e),
            Ok(s) => match spec_parse_atoms(atoms.drop_first(), min, max) {
                Err(e) => Err(e),
                Ok(s2) => Ok(s.union(s2)),
            },
        }
    }
}

/// What parsing one field of a cron expression yields over the domain
/// `min ..= max`: the covered values, or the error reported.
pub open spec fn spec_parse_element(input: Option<Seq<char>>, min: u32, max: u32) -> Result<
    Set<u32>,
    Seq<char>,
> {
    if min > max {
        Err("Invalid range given"@)
    } else {
        match input {
            None => Err("Incomplete timer spec"@),
            Some(ts) => if ts.len() == 0 {
                Err("Incomplete timer spec"@)
            } else if ts == seq!['*'] {
                Ok(full_range(min, max))
            } else {
                spec_parse_atoms(spec_split(ts, ','), min, max)
            },
        }
    }
}

/// The view of an optional string slice.
pub open spec fn opt_view(input: Option<&str>) -> Option<Seq<char>> {
    match input {
        Some(s) => Some(s@),
        None => None,
    }
}

/// Insert a value into a strictly ascending vector, keeping it ascending;
/// a value already present is left alone.
fn insert_sorted(vec: &mut Vec<u32>, v: u32)
    requires
        strictly_sorted(old(vec)@),
    ensures
        strictly_sorted(final(vec)@),
        final(vec)@.to_set() =~= old(vec)@.to_set().insert(v),
{
    let mut idx: usize = 0;
    while idx < vec.len() && vec[idx] < v
        invariant
            0 <= idx <= vec@.len(),
            strictly_sorted(vec@),
            forall|j: int| 0 <= j < idx ==> vec@[j] < v,
        decreases vec@.len() - idx,
    {
        idx += 1;
    }
    if idx < vec.len() && vec[idx] == v {
        proof {
            assert(vec@.to_set() =~= vec@.to_set().insert(v));
        }
        return ;
    }
    let ghost old_view = vec@;
    vec.insert(idx, v);
    proof {
        assert(vec@ =~= old_view.subrange(0, idx as int) + seq![v] + old_view.subrange(
            idx as int,
            old_view.len() as int,
        ));
        assert forall|i: int, j: int| 0 <= i < j < vec@.len() implies vec@[i] < vec@[j] by {
            if i < idx && j < idx {
            } else if i < idx && j == idx {
            } else if i < idx && j > idx {
                assert(vec@[j] == old_view[j - 1]);
            } else if i == idx {
                assert(vec@[j] == old_view[j - 1]);
                assert(old_view[j - 1] >= v);
                assert(old_view[j - 1] != v);
            } else {
                assert(vec@[i] == old_view[i - 1]);
                assert(vec@[j] == old_view[j - 1]);
            }
        }
        assert forall|x: u32| vec@.to_set().contains(x) <==> old_view.to_set().insert(v).contains(
            x,
        ) by {
            if vec@.to_set().contains(x) {
                let i = choose|i: int| 0 <= i < vec@.len() && vec@[i] == x;
                if i < idx {
                    assert(old_view[i] == x);
                } else if i == idx {
                } else {
                    assert(old_view[i - 1] == x);
                }
            }
            if old_view.to_set().contains(x) {
                let i = choose|i: int| 0 <= i < old_view.len() && old_view[i] == x;
                if i < idx {
                    assert(vec@[i] == x);
                } else {
                    assert(vec@[i + 1] == x);
                }
            }
            if x == v {
                assert(vec@[idx as int] == v);
            }
        }
        assert(vec@.to_set() =~= old_view.to_set().insert(v));
    }
}

/// Combine the values gathered so far with what the remaining atoms yield.
pub open spec fn atoms_combine(acc: Set<u32>, rest: Result<Set<u32>, Seq<char>>) -> Result<
    Set<u32>,
    Seq<char>,
> {
    match rest {
        Err(e) => Err(e),
        Ok(s) => Ok(acc.union(s)),
    }
}

/// Parse a single cron field into the explicit, ascending list of all
/// covered values.
///
/// The domain of the values is bounded by `min` and `max`. A failed parse
/// reports a brief error description.
#[verifier::loop_isolation(false)]
pub fn parse_element(input: Option<&str>, min: u32, max: u32) -> (r: Result<Vec<u32>, String>)
    requires
        max < u32::MAX,
    ensures
        match r {
            Ok(v) => spec_parse_element(opt_view(input), min, max) == Ok::<Set<u32>, Seq<char>>(
                v@.to_set(),
            ) && strictly_sorted(v@),
            Err(e) => spec_parse_element(opt_view(input), min, max) == Err::<Set<u32>, Seq<char>>(
                e@,
            ),
        },
{
    if min > max {
        return Err("Invalid range given".to_owned());
    }
    match input {
        None => Err("Incomplete timer spec".to_owned()),
        Some(timespec) => {
            if timespec.unicode_len() == 0 {
                return Err("Incomplete timer spec".to_owned());
            }
            let mut result: Vec<u32> = Vec::new();
            if str_eq(timespec, "*") {
                proof {
                    reveal_strlit("*");
                    assert("*"@ =~= seq!['*']);
                    assert(timespec@ =~= seq!['*']);
                    assert(result@.to_set() =~= Set::new(|v: u32| min <= v && v < min));
                }
                let mut i: u32 = min;
                while i <= max
                    invariant
                        min <= i <= max + 1,
                        max < u32::MAX,
                        strictly_sorted(result@),
                        result@.to_set() == Set::new(|v: u32| min <= v && v < i),
                    decreases max + 1 - i,
                {
                    insert_sorted(&mut result, i);
                    proof {
                        assert(result@.to_set() =~= Set::new(|v: u32| min <= v && v < i + 1));
                    }
                    i += 1;
                }
                proof {
                    assert(result@.to_set() =~= full_range(min, max));
                }
                Ok(result)
            } else {
                proof {
                    reveal_strlit("*");
                    assert("*"@ =~= seq!['*']);
                    assert(timespec@ != seq!['*']);
                }
                let ghost all_atoms = spec_split(timespec@, ',');
                let atoms = split_on(timespec, ',');
                let n = atoms.len();
                let mut k: usize = 0;
                proof {
                    assert(all_atoms.skip(0) =~= all_atoms);
                    assert(result@.to_set() =~= Set::<u32>::empty());
                    match spec_parse_atoms(all_atoms, min, max) {
                        Ok(s) => {
                            assert(result@.to_set().union(s) =~= s);
                        },
                        Err(_) => {},
                    }
                }
                while k < n
                    invariant
                        max < u32::MAX,
                        min <= max,
                        n == atoms@.len(),
                        0 <= k <= n,
                        atoms.deep_view() == all_atoms,
                        strictly_sorted(result@),
                        spec_parse_atoms(all_atoms, min, max) == atoms_combine(
                            result@.to_set(),
                            spec_parse_atoms(all_atoms.skip(k as int), min, max),
                        ),
                    decreases n - k,
                {
                    let ghost remaining = all_atoms.skip(k as int);
                    proof {
                        assert(atoms.deep_view().len() == atoms@.len());
                        assert(atoms.deep_view()[k as int] == atoms@[k as int]@);
                        assert(remaining[0] == all_atoms[k as int]);
                        assert(remaining.drop_first() =~= all_atoms.skip(k + 1));
                    }
                    let atom = &atoms[k];
                    let ghost parts_spec = spec_split(atom@, '/');
                    let parts = split_on(atom.as_str(), '/');
                    proof {
                        assert(parts.deep_view() == parts_spec);
                        assert(parts.deep_view().len() == parts@.len());
                        assert(parts.deep_view()[0] == parts@[0]@);
                    }
                    let step: u32 = if parts.len() >= 2 {
                        proof {
                            assert(parts.deep_view()[1] == parts@[1]@);
                        }
                        match parse_u32_exec(parts[1].as_str()) {
                            Some(v) => {
                                if v == 0 {
                                    proof {
                                        lemma_atoms_err(
                                            all_atoms,
                                            k as int,
                                            min,
                                            max,
                                            "Invalid step number"@,
                                        );
                                    }
                                    return Err("Invalid step number".to_owned());
                                }
                                v
                            },
                            None => {
                                proof {
                                    lemma_atoms_err(
                                        all_atoms,
                                        k as int,
                                        min,
                                        max,
                                        "Invalid step number"@,
                                    );
                                }
                                return Err("Invalid step number".to_owned());
                            },
                        }
                    } else {
                        1
                    };
                    proof {
                        assert(atom_step(parts_spec) == Ok::<u32, Seq<char>>(step));
                    }
                    let interval = &parts[0];
                    let begin: u32;
                    let end: u32;
                    if str_eq(interval.as_str(), "*") {
                        proof {
                            reveal_strlit("*");
                            assert("*"@ =~= seq!['*']);
                            assert(interval@ =~= seq!['*']);
                        }
                        begin = min;
                        end = max;
                    } else {
                        proof {
                            reveal_strlit("*");
                            assert("*"@ =~= seq!['*']);
                            assert(interval@ != seq!['*']);
                        }
                        let ghost bounds_spec = spec_split(interval@, '-');
                        let bounds = split_on(interval.as_str(), '-');
                        proof {
                            assert(bounds.deep_view() == bounds_spec);
                            assert(bounds.deep_view().len() == bounds@.len());
                            assert(bounds.deep_view()[0] == bounds@[0]@);
                        }
                        begin = match parse_u32_exec(bounds[0].as_str()) {
                            Some(b) => b,
                            None => {
                                proof {
                                    lemma_atoms_err(all_atoms, k as int, min, max, "Invalid number"@);
                                }
                                return Err("Invalid number".to_owned());
                            },
                        };
                        if bounds.len() >= 2 {
                            proof {
                                assert(bounds.deep_view()[1] == bounds@[1]@);
                            }
                            end = match parse_u32_exec(bounds[1].as_str()) {
                                Some(e) => e,
                                None => {
                                    proof {
                                        lemma_atoms_err(
                                            all_atoms,
                                            k as int,
                                            min,
                                            max,
                                            "Invalid number in end of interval"@,
                                        );
                                    }
                                    return Err("Invalid number in end of interval".to_owned());
                                },
                            };
                        } else {
                            end = begin;
                        }
                    }
                    proof {
                        assert(atom_bounds(parts_spec[0], min, max) == Ok::<(u32, u32), Seq<char>>(
                            (begin, end),
                        ));
                    }
                    if begin < min || max < begin {
                        proof {
                            lemma_atoms_err(all_atoms, k as int, min, max, "Invalid range in timer spec"@);
                        }
                        return Err("Invalid range in timer spec".to_owned());
                    }
                    if end < min || max < end {
                        proof {
                            lemma_atoms_err(all_atoms, k as int, min, max, "Invalid range in timer spec"@);
                        }
                        return Err("Invalid range in timer spec".to_owned());
                    }
                    if end < begin {
                        proof {
                            lemma_atoms_err(all_atoms, k as int, min, max, "Interval end < begin"@);
                        }
                        return Err("Interval end < begin".to_owned());
                    }
                    assert(step != 0);
                    let ghost atom_set = Set::new(
                        |v: u32| begin <= v && v <= end && v % step == begin % step,
                    );
                    proof {
                        assert(spec_parse_atom(remaining[0], min, max) is Ok);
                        assert(spec_parse_atom(remaining[0], min, max)->Ok_0 =~= atom_set);
                    }
                    let ghost before_set = result@.to_set();
                    let mut i: u32 = begin;
                    proof {
                        assert(before_set.union(
                            Set::new(|v: u32| begin <= v && v < begin && v % step == begin % step),
                        ) =~= before_set);
                    }
                    while i <= end
                        invariant
                            begin <= i <= end + 1,
                            end < u32::MAX,
                            step != 0,
                            strictly_sorted(result@),
                            result@.to_set() == before_set.union(
                                Set::new(
                                    |v: u32| begin <= v && v < i && v % step == begin % step,
                                ),
                            ),
                        decreases end + 1 - i,
                    {
                        if i % step == begin % step {
                            insert_sorted(&mut result, i);
                        }
                        proof {
                            assert(result@.to_set() =~= before_set.union(
                                Set::new(
                                    |v: u32| begin <= v && v < i + 1 && v % step == begin % step,
                                ),
                            ));
                        }
                        i += 1;
                    }
                    proof {
                        assert(result@.to_set() =~= before_set.union(atom_set));
                        let rest = spec_parse_atoms(all_atoms.skip(k + 1), min, max);
                        assert(spec_parse_atoms(remaining, min, max) == atoms_combine(
                            spec_parse_atom(remaining[0], min, max)->Ok_0,
                            rest,
                        ));
                        match rest {
                            Ok(s2) => {
                                assert(before_set.union(atom_set.union(s2)) =~= result@.to_set().union(
                                    s2,
                                ));
                            },
                            Err(_) => {},
                        }
                    }
                    k += 1;
                }
                proof {
                    assert(all_atoms.skip(n as int).len() == 0);
                    assert(spec_parse_atoms(all_atoms.skip(n as int), min, max) == Ok::<
                        Set<u32>,
                        Seq<char>,
                    >(Set::empty()));
                    assert(result@.to_set().union(Set::empty()) =~= result@.to_set());
                }
                Ok(result)
            }
        },
    }
}

/// When the atom at `k` reports an error and every atom before it
/// parses, the whole list reports that error.
proof fn lemma_atoms_err(atoms: Seq<Seq<char>>, k: int, min: u32, max: u32, msg: Seq<char>)
    requires
        0 <= k < atoms.len(),
        spec_parse_atom(atoms[k], min, max) == Err::<Set<u32>, Seq<char>>(msg),
    ensures
        spec_parse_atoms(atoms.skip(k), min, max) == Err::<Set<u32>, Seq<char>>(msg),
{
    assert(atoms.skip(k)[0] == atoms[k]);
}

/// The field at position `k`, if the expression has that many.
pub open spec fn field_at(fs: Seq<Seq<char>>, k: int) -> Option<Seq<char>> {
    if fs.len() > k {
        Some(fs[k])
    } else {
        None
    }
}

/// What parsing a whole five-field cron expression yields: the five value
/// sets, or the first error.
pub open spec fn spec_parse_timer(s: Seq<char>) -> Result<
    (Set<u32>, Set<u32>, Set<u32>, Set<u32>, Set<u32>),
    Seq<char>,
> {
    let fs = spec_fields(s);
    match spec_parse_element(field_at(fs, 0), 0, 59) {
        Err(e) => Err(e),
        Ok(minute) => match spec_parse_element(field_at(fs, 1), 0, 23) {
            Err(e) => Err(e),
            Ok(hour) => match spec_parse_element(field_at(fs, 2), 1, 31) {
                Err(e) => Err(e),
                Ok(day) => match spec_parse_element(field_at(fs, 3), 1, 12) {
                    Err(e) => Err(e),
                    Ok(month) => match spec_parse_element(field_at(fs, 4), 0, 6) {
                        Err(e) => Err(e),
                        Ok(weekday) => if fs.len() > 5 {
                            Err("Too many timer specs"@)
                        } else {
                            Ok((minute, hour, day, month, weekday))
                        },
                    },
                },
            },
        },
    }
}

/// Every value an atom covers lies in the domain, and at least one does.
proof fn lemma_atom_set_bounds(atom: Seq<char>, min: u32, max: u32)
    requires
        spec_parse_atom(atom, min, max) is Ok,
    ensures
        forall|v: u32| spec_parse_atom(atom, min, max)->Ok_0.contains(v) ==> min <= v && v <= max,
        exists|v: u32| spec_parse_atom(atom, min, max)->Ok_0.contains(v),
{
    let parts = spec_split(atom, '/');
    let step = atom_step(parts)->Ok_0;
    let (begin, end) = atom_bounds(parts[0], min, max)->Ok_0;
    assert(spec_parse_atom(atom, min, max)->Ok_0.contains(begin));
}

/// Every value a field's atoms cover lies in the domain, and at least one
/// does.
proof fn lemma_atoms_set_bounds(atoms: Seq<Seq<char>>, min: u32, max: u32)
    requires
        spec_parse_atoms(atoms, min, max) is Ok,
    ensures
        forall|v: u32|
            spec_parse_atoms(atoms, min, max)->Ok_0.contains(v) ==> min <= v && v <= max,
        atoms.len() > 0 ==> exists|v: u32| spec_parse_atoms(atoms, min, max)->Ok_0.contains(v),
    decreases atoms.len(),
{
    if atoms.len() > 0 {
        lemma_atom_set_bounds(atoms[0], min, max);
        lemma_atoms_set_bounds(atoms.drop_first(), min, max);
        let v = choose|v: u32| spec_parse_atom(atoms[0], min, max)->Ok_0.contains(v);
        assert(spec_parse_atoms(atoms, min, max)->Ok_0.contains(v));
    }
}

/// Every value a field covers lies in the domain, and at least one does.
pub proof fn lemma_element_set_bounds(input: Option<Seq<char>>, min: u32, max: u32)
    requires
        spec_parse_element(input, min, max) is Ok,
    ensures
        forall|v: u32|
            spec_parse_element(input, min, max)->Ok_0.contains(v) ==> min <= v && v <= max,
        exists|v: u32| spec_parse_element(input, min, max)->Ok_0.contains(v),
{
    let ts = input.unwrap();
    if ts == seq!['*'] {
        assert(full_range(min, max).contains(min));
        assert(spec_parse_element(input, min, max)->Ok_0.contains(min));
    } else {
        crate::text::lemma_split_rec_len(ts, ',', Seq::empty());
        lemma_atoms_set_bounds(spec_split(ts, ','), min, max);
        let v = choose|v: u32| spec_parse_atoms(spec_split(ts, ','), min, max)->Ok_0.contains(v);
        assert(spec_parse_element(input, min, max)->Ok_0.contains(v));
    }
}

/// A vector whose value set is non-empty holds a value.
proof fn lemma_nonempty_vec(s: Seq<u32>)
    requires
        exists|v: u32| s.to_set().contains(v),
    ensures
        s.len() > 0,
{
    let v = choose|v: u32| s.to_set().contains(v);
    assert(s.contains(v));
}

/// A cron expression expanded into the explicit, ascending lists of all
/// instants it covers.
#[derive(Debug, Clone)]
pub struct TimerDescription {
    pub minute: Vec<u32>,
    pub hour: Vec<u32>,
    pub day: Vec<u32>,
    pub month: Vec<u32>,
    pub weekday: Vec<u32>,
}

/// An expanded field: ascending, non-empty, within its domain.
pub open spec fn field_wf(s: Seq<u32>, min: u32, max: u32) -> bool {
    &&& strictly_sorted(s)
    &&& s.len() > 0
    &&& forall|i: int| 0 <= i < s.len() ==> min <= #[trigger] s[i] && s[i] <= max
}

impl TimerDescription {
    /// Each of the five lists is ascending, non-empty, and within its
    /// domain.
    pub open spec fn wf(self) -> bool {
        &&& field_wf(self.minute@, 0, 59)
        &&& field_wf(self.hour@, 0, 23)
        &&& field_wf(self.day@, 1, 31)
        &&& field_wf(self.month@, 1, 12)
        &&& field_wf(self.weekday@, 0, 6)
    }

    /// The five value sets as a tuple, for talking about the parse
    /// result.
    pub open spec fn sets(self) -> (Set<u32>, Set<u32>, Set<u32>, Set<u32>, Set<u32>) {
        (
            self.minute@.to_set(),
            self.hour@.to_set(),
            self.day@.to_set(),
            self.month@.to_set(),
            self.weekday@.to_set(),
        )
    }

    /// Parse a cron expression.
    ///
    /// Five whitespace-separated fields, each a comma-separated list of
    /// atoms over its domain; the result holds every covered value
    /// explicitly.
    pub fn parse(raw_desc: &str) -> (r: Result<TimerDescription, String>)
        ensures
            match r {
                Ok(td) => spec_parse_timer(raw_desc@) == Ok::<_, Seq<char>>(td.sets()) && td.wf(),
                Err(e) => spec_parse_timer(raw_desc@) == Err::<
                    (Set<u32>, Set<u32>, Set<u32>, Set<u32>, Set<u32>),
                    Seq<char>,
                >(e@),
            },
    {
        let ghost fs_spec = spec_fields(raw_desc@);
        let fs = fields(raw_desc);
        proof {
            assert(fs.deep_view().len() == fs@.len());
            assert forall|k: int| 0 <= k < fs@.len() implies fs@[k]@ == fs_spec[k] by {
                assert(fs.deep_view()[k] == fs@[k]@);
            }
        }
        let minute = match parse_element(
            if fs.len() > 0 {
                Some(fs[0].as_str())
            } else {
                None
            },
            0,
            59,
        ) {
            Ok(v) => v,
            Err(e) => {
                return Err(e);
            },
        };
        let hour = match parse_element(
            if fs.len() > 1 {
                Some(fs[1].as_str())
            } else {
                None
            },
            0,
            23,
        ) {
            Ok(v) => v,
            Err(e) => {
                return Err(e);
            },
        };
        let day = match parse_element(
            if fs.len() > 2 {
                Some(fs[2].as_str())
            } else {
                None
            },
            1,
            31,
        ) {
            Ok(v) => v,
            Err(e) => {
                return Err(e);
            },
        };
        let month = match parse_element(
            if fs.len() > 3 {
                Some(fs[3].as_str())
            } else {
                None
            },
            1,
            12,
        ) {
            Ok(v) => v,
            Err(e) => {
                return Err(e);
            },
        };
        let weekday = match parse_element(
            if fs.len() > 4 {
                Some(fs[4].as_str())
            } else {
                None
            },
            0,
            6,
        ) {
            Ok(v) => v,
            Err(e) => {
                return Err(e);
            },
        };
        if fs.len() > 5 {
            return Err("Too many timer specs".to_owned());
        }
        proof {
            lemma_element_set_bounds(field_at(fs_spec, 0), 0, 59);
            lemma_element_set_bounds(field_at(fs_spec, 1), 0, 23);
            lemma_element_set_bounds(field_at(fs_spec, 2), 1, 31);
            lemma_element_set_bounds(field_at(fs_spec, 3), 1, 12);
            lemma_element_set_bounds(field_at(fs_spec, 4), 0, 6);
            lemma_nonempty_vec(minute@);
            lemma_nonempty_vec(hour@);
            lemma_nonempty_vec(day@);
            lemma_nonempty_vec(month@);
            lemma_nonempty_vec(weekday@);
            assert forall|i: int| 0 <= i < minute@.len() implies 0 <= #[trigger] minute@[i]
                && minute@[i] <= 59 by {
                assert(minute@.to_set().contains(minute@[i]));
            }
            assert forall|i: int| 0 <= i < hour@.len() implies 0 <= #[trigger] hour@[i]
                && hour@[i] <= 23 by {
                assert(hour@.to_set().contains(hour@[i]));
            }
            assert forall|i: int| 0 <= i < day@.len() implies 1 <= #[trigger] day@[i] && day@[i]
                <= 31 by {
                assert(day@.to_set().contains(day@[i]));
            }
            assert forall|i: int| 0 <= i < month@.len() implies 1 <= #[trigger] month@[i]
                && month@[i] <= 12 by {
                assert(month@.to_set().contains(month@[i]));
            }
            assert forall|i: int| 0 <= i < weekday@.len() implies 0 <= #[trigger] weekday@[i]
                && weekday@[i] <= 6 by {
                assert(weekday@.to_set().contains(weekday@[i]));
            }
        }
        Ok(TimerDescription { minute, hour, day, month, weekday })
    }
}

/// The first element of `s` that is at least `x`.
pub open spec fn spec_first_at_least(s: Seq<u32>, x: int) -> Option<u32>
    decreases s.len(),
{
    if s.len() == 0 {
        None
    } else if s[0] >= x {
        Some(s[0])
    } else {
        spec_first_at_least(s.drop_first(), x)
    }
}

/// Find the first element of an ascending list that is at least `x`.
fn first_at_least(s: &Vec<u32>, x: u32) -> (r: Option<u32>)
    ensures
        r == spec_first_at_least(s@, x as int),
{
    let n = s.len();
    let mut i: usize = 0;
    proof {
        assert(s@.skip(0) =~= s@);
    }
    while i < n
        invariant
            n == s@.len(),
            0 <= i <= n,
            spec_first_at_least(s@, x as int) == spec_first_at_least(s@.skip(i as int), x as int),
        decreases n - i,
    {
        proof {
            assert(s@.skip(i as int)[0] == s@[i as int]);
            assert(s@.skip(i as int).drop_first() =~= s@.skip(i + 1));
        }
        if s[i] >= x {
            return Some(s[i]);
        }
        i += 1;
    }
    None
}

/// A found value is an element of the list.
proof fn lemma_first_at_least_in(s: Seq<u32>, x: int)
    ensures
        spec_first_at_least(s, x) matches Some(v) ==> exists|i: int| 0 <= i < s.len() && s[i] == v,
    decreases s.len(),
{
    if s.len() > 0 {
        if s[0] >= x {
            assert(s[0] == s[0]);
        } else {
            lemma_first_at_least_in(s.drop_first(), x);
            if spec_first_at_least(s.drop_first(), x) is Some {
                let v = spec_first_at_least(s.drop_first(), x)->0;
                let i = choose|i: int| 0 <= i < s.drop_first().len() && s.drop_first()[i] == v;
                assert(s[i + 1] == v);
            }
        }
    }
}

/// The value the scheduler picks from an ascending list for target `x`:
/// the first value at least `x`, or the list's first value with a carry
/// into the next larger unit.
pub open spec fn spec_pick(s: Seq<u32>, x: int) -> (u32, u32) {
    match spec_first_at_least(s, x) {
        Some(v) => (v, 0u32),
        None => (s[0], 1u32),
    }
}

impl TimerDescription {
    /// Minute choice and its carry.
    pub open spec fn minute_pick(self, from: DateTime) -> (u32, u32) {
        spec_pick(self.minute@, from.minute + 1)
    }

    /// Hour choice and its carry.
    pub open spec fn hour_pick(self, from: DateTime) -> (u32, u32) {
        spec_pick(self.hour@, from.hour + self.minute_pick(from).1)
    }

    /// The instant with minute and hour advanced, date untouched.
    pub open spec fn base_instant(self, from: DateTime) -> DateTime {
        DateTime { minute: self.minute_pick(from).0, hour: self.hour_pick(from).0, ..from }
    }

    /// The weekday the scheduler aims for.
    pub open spec fn next_weekday(self, from: DateTime) -> u32 {
        match spec_first_at_least(self.weekday@, from.weekday + self.hour_pick(from).1) {
            Some(v) => v,
            None => self.weekday@[0],
        }
    }

    /// Day-of-month choice and its carry.
    pub open spec fn day_pick(self, from: DateTime) -> (u32, u32) {
        spec_pick(self.day@, from.day + self.hour_pick(from).1)
    }

    /// Month choice and its carry.
    pub open spec fn month_pick(self, from: DateTime) -> (u32, u32) {
        spec_pick(self.month@, from.month + self.day_pick(from).1)
    }

    /// Days until the aimed-for weekday, counted from `from`'s weekday;
    /// with a carry out of the hour field, today no longer counts, so a
    /// same-weekday target lies a week ahead.
    pub open spec fn week_duration(self, from: DateTime) -> nat {
        let w = from.weekday;
        let carry = self.hour_pick(from).1;
        let nw = self.next_weekday(from);
        if nw < w + carry {
            (nw + 7 - w) as nat
        } else {
            (nw - w) as nat
        }
    }

    /// Where the day-by-day date search starts: a year ahead on a month
    /// wrap.
    pub open spec fn date_base(self, from: DateTime) -> nat {
        (self.month_pick(from).1 * 365) as nat
    }

    /// Whether the weekday field constrains the result.
    pub open spec fn weekday_relevant(self) -> bool {
        self.weekday@.len() != 7
    }

    /// Whether the day and month fields constrain the result.
    pub open spec fn date_relevant(self) -> bool {
        self.day@.len() != 31 || self.month@.len() != 12
    }

    /// Whether `k` days past the base instant lands on the aimed-for day
    /// and month.
    pub open spec fn date_fit_at(self, from: DateTime, k: nat) -> bool {
        let d = self.base_instant(from).spec_add_days(k);
        d.day == self.day_pick(from).0 && d.month == self.month_pick(from).0
    }

    /// Whether `k` is the day count the date search finds: the first fit
    /// at or past the search base.
    pub open spec fn is_date_duration(self, from: DateTime, k: nat) -> bool {
        &&& k >= self.date_base(from)
        &&& self.date_fit_at(from, k)
        &&& forall|j: nat| self.date_base(from) <= j < k ==> !self.date_fit_at(from, j)
    }
}

/// A found value is at least the threshold.
proof fn lemma_first_at_least_ge(s: Seq<u32>, x: int)
    ensures
        spec_first_at_least(s, x) matches Some(v) ==> v >= x,
    decreases s.len(),
{
    if s.len() > 0 && s[0] < x {
        lemma_first_at_least_ge(s.drop_first(), x);
    }
}

/// Calendar-date order, the time of day aside.
pub open spec fn date_lt(a: DateTime, b: DateTime) -> bool {
    if a.year != b.year {
        a.year < b.year
    } else if a.month != b.month {
        a.month < b.month
    } else {
        a.day < b.day
    }
}

/// One or more days forward lies strictly later, date-wise.
proof fn lemma_add_days_gt(base: DateTime, k: nat)
    requires
        base.valid(),
        k >= 1,
        base.spec_add_days(k).year < crate::datetime::YEAR_MAX,
    ensures
        base.spec_lt(base.spec_add_days(k)),
        date_lt(base, base.spec_add_days(k)),
    decreases k,
{
    lemma_add_days_md_bounds(base, (k - 1) as nat);
    let prev = base.spec_add_days((k - 1) as nat);
    lemma_add_days_year_monotone(base, (k - 1) as nat, k);
    assert(base.spec_add_days(k) == prev.spec_next_day());
    assert(spec_days_in_month(prev.year as int, prev.month as int) <= 31);
    if k > 1 {
        lemma_add_days_gt(base, (k - 1) as nat);
        crate::datetime::lemma_dt_lt_transitive(base, prev, prev.spec_next_day());
    }
}

/// Adding days never lowers the year.
proof fn lemma_add_days_year_monotone(d: DateTime, j: nat, k: nat)
    requires
        j <= k,
    ensures
        d.spec_add_days(j).year <= d.spec_add_days(k).year,
    decreases k,
{
    if j < k {
        lemma_add_days_year_monotone(d, j, (k - 1) as nat);
        let prev = d.spec_add_days((k - 1) as nat);
        assert(d.spec_add_days(k) == prev.spec_next_day());
        assert(prev.spec_next_day().year >= prev.year);
    }
}

/// Month and day stay in their calendar ranges under day stepping.
proof fn lemma_add_days_md_bounds(base: DateTime, k: nat)
    requires
        base.valid(),
    ensures
        1 <= base.spec_add_days(k).month <= 12,
        1 <= base.spec_add_days(k).day <= 31,
    decreases k,
{
    if k > 0 {
        lemma_add_days_md_bounds(base, (k - 1) as nat);
        let d = base.spec_add_days((k - 1) as nat);
        assert(base.spec_add_days(k) == d.spec_next_day());
        assert(spec_days_in_month(d.year as int, d.month as int) <= 31);
    }
}

/// Everything the next-fire computation promises about its result.
///
/// Minute and hour advance per the carry rules; if the date fields
/// constrain the result, any day count that the search characterizes and
/// that stays below the year bound pins the result; the weekday target
/// wins when it is nearer.
pub open spec fn next_fire_ok(td: TimerDescription, from: DateTime, r: DateTime) -> bool {
    &&& r.valid()
    &&& r.year + 3 <= YEAR_MAX
    &&& from.spec_lt(r)
    &&& !td.date_relevant() ==> r == td.base_instant(from).spec_add_days(td.week_duration(from))
    &&& td.date_relevant() && td.weekday_relevant() ==> forall|k: nat|
        #[trigger] td.is_date_duration(from, k) && td.base_instant(from).spec_add_days(k).year + 3
            < YEAR_MAX ==> r == td.base_instant(from).spec_add_days(
            if td.week_duration(from) < k {
                td.week_duration(from)
            } else {
                k
            },
        )
    &&& td.date_relevant() && !td.weekday_relevant() ==> forall|k: nat|
        #[trigger] td.is_date_duration(from, k) && td.base_instant(from).spec_add_days(k).year + 3
            < YEAR_MAX ==> r == td.base_instant(from).spec_add_days(k)
}

impl TimerDescription {
    /// Compute the next covered instant strictly after `from_timepoint`.
    ///
    /// Minute and hour advance to their next covered values, wrapping
    /// with a carry. If day or month constrain the result, the date is
    /// searched day by day; if the weekday constrains it too, the nearer
    /// of the two targets wins. A date that never occurs makes the
    /// search run out instead of landing; the result is then merely a
    /// valid instant, mirrored by the year bound on the day count in the
    /// contract.
    pub fn get_next_execution(&self, from_timepoint: DateTime) -> (r: DateTime)
        requires
            self.wf(),
            from_timepoint.valid(),
            from_timepoint.year + 16 <= YEAR_MAX,
        ensures
            next_fire_ok(*self, from_timepoint, r),
    {
        let from = from_timepoint;
        let (minute, carry1) = match first_at_least(&self.minute, from.minute + 1) {
            Some(v) => (v, 0u32),
            None => (self.minute[0], 1u32),
        };
        let (hour, carry) = match first_at_least(&self.hour, from.hour + carry1) {
            Some(v) => (v, 0u32),
            None => (self.hour[0], 1u32),
        };
        proof {
            lemma_first_at_least_in(self.minute@, from.minute + 1);
            lemma_first_at_least_in(self.hour@, from.hour + carry1 as int);
            match spec_first_at_least(self.minute@, from.minute + 1) {
                Some(v) => {
                    let i = choose|i: int| 0 <= i < self.minute@.len() && self.minute@[i] == v;
                },
                None => {},
            }
            match spec_first_at_least(self.hour@, from.hour + carry1 as int) {
                Some(v) => {
                    let i = choose|i: int| 0 <= i < self.hour@.len() && self.hour@[i] == v;
                },
                None => {},
            }
            assert(minute <= 59);
            assert(hour <= 23);
        }
        let base = from.with_minute(minute).with_hour(hour);
        proof {
            assert((minute, carry1) == self.minute_pick(from));
            assert((hour, carry) == self.hour_pick(from));
            assert(base == self.base_instant(from));
        }
        let next_weekday = match first_at_least(&self.weekday, from.weekday + carry) {
            Some(v) => v,
            None => self.weekday[0],
        };
        let (next_day, day_carry) = match first_at_least(&self.day, from.day + carry) {
            Some(v) => (v, 0u32),
            None => (self.day[0], 1u32),
        };
        let (next_month, month_carry) = match first_at_least(&self.month, from.month + day_carry) {
            Some(v) => (v, 0u32),
            None => (self.month[0], 1u32),
        };
        proof {
            assert(next_weekday == self.next_weekday(from));
            assert((next_day, day_carry) == self.day_pick(from));
            assert((next_month, month_carry) == self.month_pick(from));
        }
        let weekday_relevant = self.weekday.len() != 7;
        let date_relevant = self.day.len() != 31 || self.month.len() != 12;
        let week_duration: u32 = if next_weekday < from.weekday + carry {
            next_weekday + 7 - from.weekday
        } else {
            next_weekday - from.weekday
        };
        proof {
            lemma_first_at_least_in(self.weekday@, from.weekday + carry as int);
            lemma_first_at_least_ge(self.weekday@, from.weekday + carry as int);
            match spec_first_at_least(self.weekday@, from.weekday + carry as int) {
                Some(v) => {
                    let i = choose|i: int| 0 <= i < self.weekday@.len() && self.weekday@[i] == v;
                },
                None => {},
            }
            assert(next_weekday <= 6);
            assert(week_duration == self.week_duration(from));
            assert(week_duration <= 7);
            assert(carry == 1 ==> week_duration >= 1);
            lemma_first_at_least_ge(self.minute@, from.minute + 1);
            lemma_first_at_least_ge(self.hour@, from.hour + carry1 as int);
            if carry == 0 {
                assert(from.spec_lt(base));
            }
        }
        if !date_relevant {
            let fire = base.add_days(week_duration);
            proof {
                if carry == 0 {
                    if week_duration > 0 {
                        lemma_add_days_gt(base, week_duration as nat);
                        crate::datetime::lemma_dt_lt_transitive(from, base, fire);
                    }
                } else {
                    lemma_add_days_gt(base, week_duration as nat);
                    assert(date_lt(base, fire));
                    assert(base.year == from.year && base.month == from.month && base.day
                        == from.day);
                    assert(from.spec_lt(fire));
                }
            }
            return fire;
        }
        let search_base: u32 = month_carry * 365;
        let mut k: u32 = 0;
        let mut cur = base;
        proof {
            assert(cur == base.spec_add_days(0));
        }
        while (k < search_base || cur.day != next_day || cur.month != next_month) && cur.year + 3
            < YEAR_MAX
            invariant
                self.wf(),
                from.valid(),
                base == self.base_instant(from),
                base.valid(),
                base.year == from.year,
                search_base == self.date_base(from),
                next_day == self.day_pick(from).0,
                next_month == self.month_pick(from).0,
                cur == base.spec_add_days(k as nat),
                cur.valid(),
                cur.year + 3 <= YEAR_MAX,
                k <= 0xF000_0000,
                forall|j: nat| self.date_base(from) <= j < k ==> !self.date_fit_at(from, j),
            decreases YEAR_MAX - cur.year, 12 - cur.month, 31 - cur.day,
        {
            proof {
                if k >= search_base {
                    assert(!self.date_fit_at(from, k as nat));
                }
                lemma_add_days_bounded(base, k as nat);
            }
            cur = cur.next_day();
            proof {
                assert(cur == base.spec_add_days((k + 1) as nat));
            }
            k += 1;
        }
        if k >= search_base && cur.day == next_day && cur.month == next_month {
            proof {
                assert(self.is_date_duration(from, k as nat));
                assert forall|k2: nat|
                    #[trigger] self.is_date_duration(from, k2) && base.spec_add_days(k2).year + 3
                        < YEAR_MAX implies k2 == k as nat by {
                    if k2 < k as nat {
                        assert(!self.date_fit_at(from, k2));
                    } else if k2 > k as nat {
                        assert(!self.date_fit_at(from, k as nat));
                    }
                }
            }
            proof {
                if k == 0 {
                    assert(cur == base.spec_add_days(0));
                    if carry == 1 {
                        lemma_first_at_least_ge(self.day@, from.day + carry as int);
                        lemma_first_at_least_ge(self.month@, from.month + day_carry as int);
                        assert(false);
                    }
                } else {
                    lemma_add_days_gt(base, k as nat);
                    if carry == 0 {
                        crate::datetime::lemma_dt_lt_transitive(from, base, cur);
                    } else {
                        assert(date_lt(base, cur));
                        assert(base.year == from.year && base.month == from.month && base.day
                            == from.day);
                        assert(from.spec_lt(cur));
                    }
                }
            }
            if weekday_relevant && week_duration < k {
                let fire = base.add_days(week_duration);
                proof {
                    if carry == 0 {
                        if week_duration > 0 {
                            lemma_add_days_gt(base, week_duration as nat);
                            crate::datetime::lemma_dt_lt_transitive(from, base, fire);
                        }
                    } else {
                        lemma_add_days_gt(base, week_duration as nat);
                        assert(date_lt(base, fire));
                        assert(from.spec_lt(fire));
                    }
                }
                return fire;
            }
            return cur;
        }
        proof {
            assert(cur.year + 3 >= YEAR_MAX);
            assert(k >= 1);
            lemma_add_days_gt(base, k as nat);
            if carry == 0 {
                crate::datetime::lemma_dt_lt_transitive(from, base, cur);
            } else {
                assert(date_lt(base, cur));
                assert(from.spec_lt(cur));
            }
            assert forall|k2: nat|
                !(#[trigger] self.is_date_duration(from, k2) && base.spec_add_days(k2).year + 3
                    < YEAR_MAX) by {
                if self.is_date_duration(from, k2) {
                    if k2 < k as nat {
                        assert(!self.date_fit_at(from, k2));
                    } else {
                        lemma_add_days_year_monotone(base, k as nat, k2);
                    }
                }
            }
        }
        cur
    }
}

/// The day count stays far below its integer limit while the year stays
/// below its own bound.
proof fn lemma_add_days_bounded(base: DateTime, k: nat)
    requires
        base.valid(),
        base.spec_add_days(k).year < YEAR_MAX,
    ensures
        k < 0xF000_0000,
{
    lemma_add_days_day_count(base, k);
    lemma_add_days_md_bounds(base, k);
}

/// Each day adds one to the (year, month, day) measure, which the year
/// bound then caps.
proof fn lemma_add_days_day_count(base: DateTime, k: nat)
    requires
        base.valid(),
        base.spec_add_days(k).year < YEAR_MAX,
    ensures
        base.spec_add_days(k).year * 372 + base.spec_add_days(k).month * 31 + base.spec_add_days(
            k,
        ).day >= base.year * 372 + base.month * 31 + base.day + k,
    decreases k,
{
    if k > 0 {
        lemma_add_days_year_monotone(base, (k - 1) as nat, k);
        lemma_add_days_day_count(base, (k - 1) as nat);
        lemma_add_days_md_bounds(base, (k - 1) as nat);
        let d = base.spec_add_days((k - 1) as nat);
        assert(base.spec_add_days(k) == d.spec_next_day());
        assert(spec_days_in_month(d.year as int, d.month as int) <= 31);
    }
}

/// An ascending full-domain list is the identity: position `i` holds
/// `min + i`.
proof fn lemma_sorted_full_identity(s: Seq<u32>, min: u32, max: u32)
    requires
        field_wf(s, min, max),
        s.len() == max - min + 1,
    ensures
        forall|i: int| 0 <= i < s.len() ==> s[i] == min + i,
{
    assert forall|i: int| 0 <= i < s.len() implies s[i] == min + i by {
        lemma_sorted_lower(s, min, max, i);
        lemma_sorted_upper(s, min, max, i);
    }
}

/// In an ascending list over the domain, position `i` holds at least
/// `min + i`.
proof fn lemma_sorted_lower(s: Seq<u32>, min: u32, max: u32, i: int)
    requires
        field_wf(s, min, max),
        0 <= i < s.len(),
    ensures
        s[i] >= min + i,
    decreases i,
{
    if i > 0 {
        lemma_sorted_lower(s, min, max, i - 1);
        assert(s[i - 1] < s[i]);
    }
}

/// In an ascending list over the domain, position `i` holds at most
/// `max - (len - 1 - i)`.
proof fn lemma_sorted_upper(s: Seq<u32>, min: u32, max: u32, i: int)
    requires
        field_wf(s, min, max),
        0 <= i < s.len(),
    ensures
        s[i] + (s.len() - 1 - i) <= max,
    decreases s.len() - i,
{
    if i < s.len() - 1 {
        lemma_sorted_upper(s, min, max, i + 1);
        assert(s[i] < s[i + 1]);
    }
}

/// Scanning an identity list for the first element at least `x` finds
/// `x` itself, or nothing past the end.
proof fn lemma_first_at_least_identity(s: Seq<u32>, min: u32, max: u32, x: int)
    requires
        s.len() == max - min + 1 || (s.len() == 0 && min == max + 1),
        forall|i: int| 0 <= i < s.len() ==> s[i] == min + i,
        min <= x,
        min <= max + 1,
        max < 0xFFFF_FFFF,
    ensures
        spec_first_at_least(s, x) == (if x <= max {
            Some(x as u32)
        } else {
            None::<u32>
        }),
    decreases s.len(),
{
    if s.len() > 0 {
        if s[0] >= x {
            assert(x == min);
        } else {
            assert forall|i: int| 0 <= i < s.drop_first().len() implies s.drop_first()[i] == min
                + 1 + i by {
                assert(s.drop_first()[i] == s[i + 1]);
            }
            lemma_first_at_least_identity(s.drop_first(), (min + 1) as u32, max, x);
        }
    }
}

/// The instant one minute later, with the date carried forward.
pub open spec fn spec_add_one_minute(from: DateTime) -> DateTime {
    if from.minute < 59 {
        DateTime { minute: (from.minute + 1) as u32, ..from }
    } else if from.hour < 23 {
        DateTime { minute: 0, hour: (from.hour + 1) as u32, ..from }
    } else {
        DateTime { minute: 0, hour: 0, ..from.spec_next_day() }
    }
}

/// A timer whose five fields cover their whole domains fires at every
/// minute: the next execution after any instant is exactly one minute
/// later.
pub proof fn lemma_full_domain_fires_next_minute(td: TimerDescription, from: DateTime, r: DateTime)
    requires
        td.wf(),
        from.valid(),
        td.minute@.len() == 60,
        td.hour@.len() == 24,
        td.day@.len() == 31,
        td.month@.len() == 12,
        td.weekday@.len() == 7,
        next_fire_ok(td, from, r),
    ensures
        r == spec_add_one_minute(from),
{
    lemma_sorted_full_identity(td.minute@, 0, 59);
    lemma_sorted_full_identity(td.hour@, 0, 23);
    lemma_sorted_full_identity(td.weekday@, 0, 6);
    lemma_first_at_least_identity(td.minute@, 0, 59, from.minute + 1);
    assert(!td.date_relevant());
    if from.minute < 59 {
        assert(td.minute_pick(from) == ((from.minute + 1) as u32, 0u32));
        lemma_first_at_least_identity(td.hour@, 0, 23, from.hour as int);
        assert(td.hour_pick(from) == (from.hour, 0u32));
        lemma_first_at_least_identity(td.weekday@, 0, 6, from.weekday as int);
        assert(td.next_weekday(from) == from.weekday);
        assert(td.week_duration(from) == 0);
        assert(r == td.base_instant(from).spec_add_days(0));
    } else {
        assert(td.minute_pick(from) == (0u32, 1u32));
        lemma_first_at_least_identity(td.hour@, 0, 23, from.hour + 1);
        if from.hour < 23 {
            assert(td.hour_pick(from) == (((from.hour + 1) as u32), 0u32));
            lemma_first_at_least_identity(td.weekday@, 0, 6, from.weekday as int);
            assert(td.next_weekday(from) == from.weekday);
            assert(td.week_duration(from) == 0);
            assert(r == td.base_instant(from).spec_add_days(0));
        } else {
            assert(td.hour_pick(from) == (0u32, 1u32));
            lemma_first_at_least_identity(td.weekday@, 0, 6, from.weekday + 1);
            let base = td.base_instant(from);
            if from.weekday < 6 {
                assert(td.next_weekday(from) == from.weekday + 1);
                assert(td.week_duration(from) == 1);
            } else {
                assert(td.next_weekday(from) == td.weekday@[0]);
                assert(td.weekday@[0] == 0);
                assert(td.week_duration(from) == 1);
            }
            assert(r == base.spec_add_days(1));
            assert(base.spec_add_days(1) == base.spec_add_days(0).spec_next_day());
            assert(base.spec_add_days(0) == base);
            assert(base.spec_next_day() == spec_add_one_minute(from));
        }
    }
}

/// The explicit form of a field: its values in list order, separated by
/// commas.
pub open spec fn spec_print_element(values: Seq<u32>) -> Seq<char>
    decreases values.len(),
{
    if values.len() <= 1 {
        dec_digits(values[0] as nat)
    } else {
        dec_digits(values[0] as nat) + seq![','] + spec_print_element(values.drop_first())
    }
}

/// Pretty-print an expanded field as the comma-separated list of all its
/// values.
#[verifier::loop_isolation(false)]
pub fn format_element(values: &Vec<u32>) -> (r: String)
    requires
        values@.len() > 0,
    ensures
        r@ == spec_print_element(values@),
{
    let mut out = String::new();
    append_u32(&mut out, values[0]);
    let n = values.len();
    let mut k: usize = 1;
    proof {
        reveal_strlit(",");
        assert(","@ =~= seq![',']);
        lemma_print_is_head_and_tail(values@, 0);
        assert(values@.skip(0) =~= values@);
        assert(Seq::<char>::empty() + dec_digits(values@[0] as nat) =~= dec_digits(
            values@[0] as nat,
        ));
    }
    while k < n
        invariant
            1 <= k <= n,
            n == values@.len(),
            spec_print_element(values@) == out@ + tail_print(values@, k as int),
        decreases n - k,
    {
        proof {
            lemma_tail_print_step(values@, k as int);
        }
        let ghost pre = out@;
        out.append(",");
        append_u32(&mut out, values[k]);
        proof {
            assert(out@ =~= pre + seq![','] + dec_digits(values@[k as int] as nat));
            assert(pre + (seq![','] + dec_digits(values@[k as int] as nat) + tail_print(
                values@,
                k + 1,
            )) =~= (pre + seq![','] + dec_digits(values@[k as int] as nat)) + tail_print(
                values@,
                k + 1,
            ));
        }
        k += 1;
    }
    proof {
        assert(tail_print(values@, n as int) =~= Seq::<char>::empty());
        assert(out@ + Seq::<char>::empty() =~= out@);
    }
    out
}

/// What remains to be printed after the first `k` values.
pub open spec fn tail_print(values: Seq<u32>, k: int) -> Seq<char>
    decreases values.len() - k,
{
    if k < 0 || k >= values.len() {
        Seq::empty()
    } else {
        seq![','] + dec_digits(values[k] as nat) + tail_print(values, k + 1)
    }
}

/// Unfolding one printed value into the prefix.
proof fn lemma_tail_print_step(values: Seq<u32>, k: int)
    requires
        1 <= k < values.len(),
    ensures
        tail_print(values, k) == seq![','] + dec_digits(values[k] as nat) + tail_print(
            values,
            k + 1,
        ),
{
}

/// The whole print is the first value followed by the printed tail.
proof fn lemma_print_is_head_and_tail(values: Seq<u32>, k: int)
    requires
        0 <= k < values.len(),
    ensures
        spec_print_element(values.skip(k)) == dec_digits(values[k] as nat) + tail_print(
            values,
            k + 1,
        ),
    decreases values.len() - k,
{
    let s = values.skip(k);
    assert(s[0] == values[k]);
    if s.len() <= 1 {
        assert(k == values.len() - 1);
        assert(spec_print_element(s) == dec_digits(values[k] as nat));
        assert(dec_digits(values[k] as nat) + Seq::<char>::empty() =~= dec_digits(
            values[k] as nat,
        ));
    } else {
        lemma_print_is_head_and_tail(values, k + 1);
        assert(s.drop_first() =~= values.skip(k + 1));
        assert(dec_digits(values[k] as nat) + (seq![','] + dec_digits(values[k + 1] as nat)
            + tail_print(values, k + 2)) =~= dec_digits(values[k] as nat) + seq![','] + (
        dec_digits(values[k + 1] as nat) + tail_print(values, k + 2)));
    }
}

/// A printed value holds digits alone, so no separator and no wildcard.
proof fn lemma_dec_digits_plain(v: nat)
    ensures
        crate::text::no_sep(dec_digits(v), ','),
        crate::text::no_sep(dec_digits(v), '/'),
        crate::text::no_sep(dec_digits(v), '-'),
        dec_digits(v) != seq!['*'],
{
    crate::text::lemma_dec_digits_roundtrip(v);
    let s = dec_digits(v);
    assert forall|i: int| 0 <= i < s.len() implies s[i] != ',' && s[i] != '/' && s[i] != '-' by {
        assert(crate::text::is_digit(s[i]));
    }
    if s == seq!['*'] {
        assert(crate::text::is_digit(s[0]));
    }
}

/// Parsing one printed value covers exactly that value.
proof fn lemma_parse_printed_atom(v: u32, min: u32, max: u32)
    requires
        min <= v <= max,
    ensures
        spec_parse_atom(dec_digits(v as nat), min, max) == Ok::<Set<u32>, Seq<char>>(
            Set::<u32>::empty().insert(v),
        ),
{
    let dec = dec_digits(v as nat);
    crate::text::lemma_dec_digits_roundtrip(v as nat);
    lemma_dec_digits_plain(v as nat);
    crate::text::lemma_split_rec_no_sep(dec, '/', Seq::empty());
    crate::text::lemma_split_rec_no_sep(dec, '-', Seq::empty());
    assert(spec_split(dec, '/') == seq![Seq::<char>::empty() + dec]);
    assert(Seq::<char>::empty() + dec =~= dec);
    assert(spec_split(dec, '/')[0] == dec);
    assert(spec_split(dec, '/').len() == 1);
    assert(atom_step(spec_split(dec, '/')) == Ok::<u32, Seq<char>>(1u32));
    assert(spec_split(dec, '-')[0] == dec);
    assert(spec_split(dec, '-').len() == 1);
    assert(parse_u32_s(dec) == Some(v));
    assert(atom_bounds(dec, min, max) == Ok::<(u32, u32), Seq<char>>((v, v)));
    assert(spec_parse_atom(dec, min, max) == Ok::<Set<u32>, Seq<char>>(
        Set::new(|w: u32| v <= w && w <= v && w % 1 == v % 1),
    ));
    assert(Set::new(|w: u32| v <= w && w <= v && w % 1 == v % 1) =~= Set::<u32>::empty().insert(
        v,
    ));
}

/// The printed pieces of the whole list.
pub open spec fn printed_pieces(values: Seq<u32>) -> Seq<Seq<char>> {
    Seq::new(values.len(), |i: int| dec_digits(values[i] as nat))
}

/// Splitting the printed list at the commas recovers each value's digits.
proof fn lemma_split_printed(values: Seq<u32>)
    requires
        values.len() > 0,
    ensures
        spec_split(spec_print_element(values), ',') == printed_pieces(values),
    decreases values.len(),
{
    let s = spec_print_element(values);
    lemma_dec_digits_plain(values[0] as nat);
    if values.len() == 1 {
        crate::text::lemma_split_rec_no_sep(s, ',', Seq::empty());
        assert(Seq::<char>::empty() + s =~= s);
        assert(spec_split(s, ',') =~= printed_pieces(values));
    } else {
        lemma_split_printed(values.drop_first());
        crate::text::lemma_split_rec_cut(
            dec_digits(values[0] as nat),
            spec_print_element(values.drop_first()),
            ',',
            Seq::empty(),
        );
        assert(s =~= dec_digits(values[0] as nat) + seq![','] + spec_print_element(
            values.drop_first(),
        ));
        assert(Seq::<char>::empty() + dec_digits(values[0] as nat) =~= dec_digits(
            values[0] as nat,
        ));
        assert(printed_pieces(values).drop_first() =~= printed_pieces(values.drop_first()));
        assert(spec_split(s, ',') =~= printed_pieces(values));
    }
}

/// Folding the printed atoms together covers exactly the original values.
proof fn lemma_parse_printed_atoms(values: Seq<u32>, min: u32, max: u32)
    requires
        forall|i: int| 0 <= i < values.len() ==> min <= #[trigger] values[i] && values[i] <= max,
    ensures
        spec_parse_atoms(printed_pieces(values), min, max) == Ok::<Set<u32>, Seq<char>>(
            values.to_set(),
        ),
    decreases values.len(),
{
    let pieces = printed_pieces(values);
    if values.len() == 0 {
        assert(values.to_set() =~= Set::<u32>::empty());
    } else {
        lemma_parse_printed_atom(values[0], min, max);
        lemma_parse_printed_atoms(values.drop_first(), min, max);
        assert(pieces[0] == dec_digits(values[0] as nat));
        assert(pieces.drop_first() =~= printed_pieces(values.drop_first()));
        assert(Set::<u32>::empty().insert(values[0]).union(values.drop_first().to_set())
            =~= values.to_set()) by {
            assert forall|w: u32| values.to_set().contains(w) implies Set::<u32>::empty().insert(
                values[0],
            ).union(values.drop_first().to_set()).contains(w) by {
                let i = choose|i: int| 0 <= i < values.len() && values[i] == w;
                if i > 0 {
                    assert(values.drop_first()[i - 1] == w);
                }
            }
            assert forall|w: u32|
                Set::<u32>::empty().insert(values[0]).union(
                    values.drop_first().to_set(),
                ).contains(w) implies values.to_set().contains(w) by {
                if w == values[0] {
                    assert(values[0] == w);
                } else {
                    let i = choose|i: int|
                        0 <= i < values.drop_first().len() && values.drop_first()[i] == w;
                    assert(values[i + 1] == w);
                }
            }
        }
    }
}

/// Parsing is a left inverse of pretty-printing: the explicit form of a
/// field parses back to exactly the values it names, neither widened nor
/// narrowed.
pub proof fn lemma_print_parse_roundtrip(values: Seq<u32>, min: u32, max: u32)
    requires
        values.len() > 0,
        min <= max,
        forall|i: int| 0 <= i < values.len() ==> min <= #[trigger] values[i] && values[i] <= max,
    ensures
        spec_parse_element(Some(spec_print_element(values)), min, max) == Ok::<
            Set<u32>,
            Seq<char>,
        >(values.to_set()),
{
    let s = spec_print_element(values);
    lemma_print_is_head_and_tail(values, 0);
    assert(values.skip(0) =~= values);
    crate::text::lemma_dec_digits_roundtrip(values[0] as nat);
    assert(s.len() > 0) by {
        assert(s == dec_digits(values[0] as nat) + tail_print(values, 1));
    }
    assert(s[0] == dec_digits(values[0] as nat)[0]);
    assert(s != seq!['*']) by {
        assert(crate::text::is_digit(s[0]));
    }
    lemma_split_printed(values);
    lemma_parse_printed_atoms(values, min, max);
}

} // verus!
