//! The solution as the tables that are shown: for each laboratory its
//! teachers, and for each teacher the grades that come to the laboratory,
//! slot by slot.
use crate::school::ClassRef;
use crate::school::Day;
use crate::school::School;
use crate::school::Slot;
use crate::solver::solution::Error;
use crate::solver::solution::LabSlottedClass;
use crate::solver::solution::Solution;
use crate::solver::solution::SolutionView;
use crate::solver::solution::Warning;
use crate::table::ascending;
use crate::table::ids_of;
use crate::table::lemma_ascending_unique;
use crate::table::lemma_ids_of;
use vstd::prelude::*;
use vstd::string::StringExecFns;

verus! {

/// Those of `data` whose key is `k`, in the order of `data`. The key of the
/// `i`-th of `data` is the `i`-th of `keys`.
pub open spec fn keyed<D>(data: Seq<D>, keys: Seq<usize>, k: usize) -> Seq<D>
    decreases data.len(),
{
    if data.len() == 0 || keys.len() != data.len() {
        Seq::empty()
    } else {
        let before = keyed(data.drop_last(), keys.drop_last(), k);
        if keys.last() == k {
            before.push(data.last())
        } else {
            before
        }
    }
}

/// `data` in groups of equal key, the groups in the order of their keys,
/// each group in the order of `data`.
pub open spec fn grouped<D>(data: Seq<D>, keys: Seq<usize>) -> Seq<(usize, Seq<D>)> {
    ids_of(keys.to_set()).map_values(|k: usize| (k, keyed(data, keys, k)))
}

/// The groups as sequences.
pub open spec fn groups_view<D>(groups: Seq<(usize, Vec<D>)>) -> Seq<(usize, Seq<D>)> {
    groups.map_values(|g: (usize, Vec<D>)| (g.0, g.1@))
}

/// The keys in ascending order, each once.
fn distinct_keys(keys: &Vec<usize>) -> (r: Vec<usize>)
    ensures
        r@ == ids_of(keys@.to_set()),
{
    let mut out: Vec<usize> = Vec::new();
    for i in 0..keys.len()
        invariant
            ascending(out@),
            forall|k: usize| #[trigger] out@.contains(k) <==> keys@.take(i as int).contains(k),
    {
        let k = keys[i];
        let ghost before = out@;
        let ghost seen = keys@.take(i as int);
        let mut p: usize = 0;
        while p < out.len() && out[p] < k
            invariant
                p <= out.len(),
                forall|j: int| 0 <= j < p ==> out@[j] < k,
            decreases out.len() - p,
        {
            p += 1;
        }
        if p == out.len() || out[p] != k {
            out.insert(p, k);
            assert forall|a: int, b: int| 0 <= a < b < out@.len() implies out@[a] < out@[b] by {
                if a < p && b > p {
                    assert(before[a] < k && k < before[b - 1]);
                } else if a < p && b < p {
                    assert(before[a] < before[b]);
                } else if a > p {
                    assert(before[a - 1] < before[b - 1]);
                } else if a == p {
                    assert(k < before[p as int] && (b - 1 == p || before[p as int] < before[b - 1]));
                }
            }
            assert forall|x: usize| #[trigger] out@.contains(x) <==> keys@.take(i + 1).contains(x) by {
                assert(keys@.take(i + 1) == seen.push(k));
                if out@.contains(x) {
                    let j = choose|j: int| 0 <= j < out@.len() && out@[j] == x;
                    if j < p {
                        assert(before[j] == x);
                        assert(before.contains(x));
                        let n = choose|n: int| 0 <= n < seen.len() && seen[n] == x;
                        assert(seen.push(k)[n] == x);
                    } else if j > p {
                        assert(before[j - 1] == x);
                        assert(before.contains(x));
                        let n = choose|n: int| 0 <= n < seen.len() && seen[n] == x;
                        assert(seen.push(k)[n] == x);
                    } else {
                        assert(seen.push(k)[seen.len() as int] == x);
                    }
                }
                if seen.push(k).contains(x) {
                    let n = choose|n: int| 0 <= n < seen.push(k).len() && seen.push(k)[n] == x;
                    if n < seen.len() {
                        assert(seen[n] == x);
                        assert(seen.contains(x));
                        assert(before.contains(x));
                        let j = choose|j: int| 0 <= j < before.len() && before[j] == x;
                        if j < p {
                            assert(out@[j] == x);
                        } else {
                            assert(out@[j + 1] == x);
                        }
                    } else {
                        assert(out@[p as int] == x);
                    }
                }
            }
        } else {
            assert forall|x: usize| #[trigger] out@.contains(x) <==> keys@.take(i + 1).contains(x) by {
                assert(keys@.take(i + 1) == seen.push(k));
                if out@.contains(x) {
                    let n = choose|n: int| 0 <= n < seen.len() && seen[n] == x;
                    assert(seen.push(k)[n] == x);
                }
                if seen.push(k).contains(x) {
                    let n = choose|n: int| 0 <= n < seen.push(k).len() && seen.push(k)[n] == x;
                    if n < seen.len() {
                        assert(seen[n] == x);
                        assert(seen.contains(x));
                        assert(before.contains(x));
                    } else {
                        assert(out@[p as int] == x);
                    }
                }
            }
        }
    }
    proof {
        assert(keys@.take(keys.len() as int) == keys@);
        lemma_ids_of(keys@.to_set());
        assert forall|k: usize| out@.contains(k) <==> ids_of(keys@.to_set()).contains(k) by {
            assert(keys@.to_set().contains(k) <==> keys@.contains(k));
        }
        lemma_ascending_unique(out@, ids_of(keys@.to_set()));
    }
    out
}

/// Groups `data` by key: the key of the `i`-th of `data` is the `i`-th of
/// `keys`. The groups come in the order of their keys. Where `keys` is not
/// as long as `data`, each key has an empty group.
pub fn group_by<D: Copy>(data: &Vec<D>, keys: &Vec<usize>) -> (r: Vec<(usize, Vec<D>)>)
    ensures
        groups_view(r@) == grouped(data@, keys@),
{
    let distinct = distinct_keys(keys);
    let matching = keys.len() == data.len();
    let mut out: Vec<(usize, Vec<D>)> = Vec::new();
    for g in 0..distinct.len()
        invariant
            matching == (keys@.len() == data@.len()),
            distinct@ == ids_of(keys@.to_set()),
            out@.len() == g,
            forall|j: int|
                0 <= j < g ==> (#[trigger] out@[j]).0 == distinct@[j] && out@[j].1@ == keyed(
                    data@,
                    keys@,
                    distinct@[j],
                ),
    {
        let k = distinct[g];
        let mut group: Vec<D> = Vec::new();
        if matching {
            proof {
                assert(data@.take(0) == Seq::<D>::empty());
            }
            for i in 0..data.len()
                invariant
                    keys@.len() == data@.len(),
                    group@ == keyed(data@.take(i as int), keys@.take(i as int), k),
            {
                proof {
                    assert(data@.take(i + 1).drop_last() == data@.take(i as int));
                    assert(keys@.take(i + 1).drop_last() == keys@.take(i as int));
                }
                if keys[i] == k {
                    group.push(data[i]);
                }
            }
            proof {
                assert(data@.take(data.len() as int) == data@);
                assert(keys@.take(data.len() as int) == keys@);
            }
        }
        out.push((k, group));
    }
    assert(groups_view(out@) =~= grouped(data@, keys@));
    out
}

/// The place of a day in the week.
pub open spec fn day_rank(d: Day) -> int {
    match d {
        Day::Monday => 0,
        Day::Tuesday => 1,
        Day::Wednesday => 2,
        Day::Thursday => 3,
        Day::Friday => 4,
    }
}

/// `a` is earlier in the week than `b`.
pub open spec fn slot_before(a: Slot, b: Slot) -> bool {
    ||| day_rank(a.day) < day_rank(b.day)
    ||| day_rank(a.day) == day_rank(b.day) && a.time.0 < b.time.0
    ||| day_rank(a.day) == day_rank(b.day) && a.time.0 == b.time.0 && a.time.1 < b.time.1
}

/// The slot under `a` is shown before the slot under `b`: it is earlier in
/// the week, or they are at the same time and `a` is the smaller id.
pub open spec fn shown_before(slots: Map<usize, Slot>, a: usize, b: usize) -> bool {
    slot_before(slots[a], slots[b]) || (!slot_before(slots[b], slots[a]) && a < b)
}

/// `order` lists the slots of the school, each once, as they are shown.
pub open spec fn is_slot_order(school: &School, order: Seq<usize>) -> bool {
    &&& forall|i: int, j: int|
        0 <= i < j < order.len() ==> shown_before(school.slots@, #[trigger] order[i], #[trigger] order[j])
    &&& forall|s: usize| #[trigger] order.contains(s) <==> school.slots@.contains_key(s)
}

/// `order` lists the members of `among`, each once, as the slots are shown.
pub open spec fn orders(slots: Map<usize, Slot>, among: Set<usize>, order: Seq<usize>) -> bool {
    &&& forall|i: int, j: int|
        0 <= i < j < order.len() ==> shown_before(slots, #[trigger] order[i], #[trigger] order[j])
    &&& forall|s: usize| #[trigger] order.contains(s) <==> among.contains(s)
}

/// There is one order in which the slots are shown.
pub proof fn lemma_order_unique(slots: Map<usize, Slot>, among: Set<usize>, a: Seq<usize>, b: Seq<usize>)
    requires
        orders(slots, among, a),
        orders(slots, among, b),
    ensures
        a == b,
    decreases a.len(),
{
    if a.len() == 0 {
        if b.len() > 0 {
            assert(b.contains(b[0]));
            assert(a.contains(b[0]));
        }
        assert(a =~= b);
    } else {
        let top = a.last();
        assert(a.contains(top));
        assert(b.contains(top));
        let ib = choose|i: int| 0 <= i < b.len() && b[i] == top;
        assert(b.contains(b.last()));
        assert(a.contains(b.last()));
        let ia = choose|i: int| 0 <= i < a.len() && a[i] == b.last();
        if ib < b.len() - 1 {
            assert(shown_before(slots, b[ib], b[b.len() - 1]));
            if ia < a.len() - 1 {
                assert(shown_before(slots, a[ia], a[a.len() - 1]));
            }
        }
        assert(b.last() == top);
        let rest = among.remove(top);
        let a0 = a.drop_last();
        let b0 = b.drop_last();
        assert(orders(slots, rest, a0)) by {
            assert forall|s: usize| #[trigger] a0.contains(s) <==> rest.contains(s) by {
                if a0.contains(s) {
                    let i = choose|i: int| 0 <= i < a0.len() && a0[i] == s;
                    assert(a[i] == s);
                    assert(a.contains(s));
                    assert(shown_before(slots, a[i], a[a.len() - 1]));
                }
                if rest.contains(s) {
                    assert(a.contains(s));
                    let i = choose|i: int| 0 <= i < a.len() && a[i] == s;
                    assert(a0[i] == s);
                }
            }
            assert forall|i: int, j: int| 0 <= i < j < a0.len() implies shown_before(
                slots,
                #[trigger] a0[i],
                #[trigger] a0[j],
            ) by {
                assert(shown_before(slots, a[i], a[j]));
            }
        }
        assert(orders(slots, rest, b0)) by {
            assert forall|s: usize| #[trigger] b0.contains(s) <==> rest.contains(s) by {
                if b0.contains(s) {
                    let i = choose|i: int| 0 <= i < b0.len() && b0[i] == s;
                    assert(b[i] == s);
                    assert(b.contains(s));
                    assert(shown_before(slots, b[i], b[b.len() - 1]));
                }
                if rest.contains(s) {
                    assert(b.contains(s));
                    let i = choose|i: int| 0 <= i < b.len() && b[i] == s;
                    assert(b0[i] == s);
                }
            }
            assert forall|i: int, j: int| 0 <= i < j < b0.len() implies shown_before(
                slots,
                #[trigger] b0[i],
                #[trigger] b0[j],
            ) by {
                assert(shown_before(slots, b[i], b[j]));
            }
        }
        lemma_order_unique(slots, rest, a0, b0);
        assert(a =~= a0.push(top));
        assert(b =~= b0.push(top));
    }
}

/// What is shown of a solution is determined by the school and the solution.
pub proof fn lemma_shown_unique(school: &School, sol: SolutionView, a: Seq<usize>, b: Seq<usize>)
    requires
        is_slot_order(school, a),
        is_slot_order(school, b),
    ensures
        shown(school, sol, a) == shown(school, sol, b),
{
    lemma_order_unique(school.slots@, school.slots@.dom(), a, b);
}

/// The place of a day in the week.
fn rank(d: Day) -> (r: u8)
    ensures
        r == day_rank(d),
{
    match d {
        Day::Monday => 0,
        Day::Tuesday => 1,
        Day::Wednesday => 2,
        Day::Thursday => 3,
        Day::Friday => 4,
    }
}

/// Whether `a` is earlier in the week than `b`.
fn earlier(a: &Slot, b: &Slot) -> (r: bool)
    ensures
        r == slot_before(*a, *b),
{
    let (da, db) = (rank(a.day), rank(b.day));
    da < db || (da == db && (a.time.0 < b.time.0 || (a.time.0 == b.time.0 && a.time.1 < b.time.1)))
}

/// The ids of the slots in the order in which they are shown.
pub fn slot_order(school: &School) -> (r: Vec<usize>)
    ensures
        is_slot_order(school, r@),
{
    let entries = school.slots.iter();
    let ghost ids = school.slots.ids();
    let ghost slots = school.slots@;
    let mut out: Vec<usize> = Vec::new();
    proof {
        lemma_ids_of(school.slots@.dom());
    }
    for i in 0..entries.len()
        invariant
            ids == school.slots.ids(),
            slots == school.slots@,
            ascending(ids),
            entries@.len() == ids.len(),
            forall|k: usize| #[trigger] ids.contains(k) <==> slots.contains_key(k),
            forall|j: int|
                0 <= j < entries@.len() ==> (#[trigger] entries@[j]).0 == ids[j] && *entries@[j].1
                    == slots[ids[j]],
            forall|a: int, b: int|
                0 <= a < b < out@.len() ==> shown_before(slots, #[trigger] out@[a], #[trigger] out@[b]),
            forall|s: usize| #[trigger] out@.contains(s) <==> ids.take(i as int).contains(s),
    {
        let (id, slot) = entries[i];
        let ghost before = out@;
        let ghost seen = ids.take(i as int);
        assert(ids.contains(ids[i as int]));
        proof {
            assert forall|j: int| 0 <= j < out@.len() implies slots.contains_key(#[trigger] out@[j]) by {
                assert(out@.contains(out@[j]));
                let n = choose|n: int| 0 <= n < seen.len() && seen[n] == out@[j];
                assert(ids.contains(ids[n]));
            }
        }
        let mut p: usize = 0;
        while p < out.len() && !earlier(slot, slot_at(school, out[p]))
            invariant
                before == out@,
                slots == school.slots@,
                p <= out.len(),
                slots.contains_key(id),
                *slot == slots[id],
                forall|j: int| 0 <= j < out@.len() ==> slots.contains_key(#[trigger] out@[j]),
                forall|j: int| 0 <= j < p ==> !slot_before(slots[id], slots[#[trigger] out@[j]]),
            decreases out.len() - p,
        {
            p += 1;
        }
        proof {
            assert forall|s: usize| #[trigger] before.contains(s) implies s < id by {
                let n = choose|n: int| 0 <= n < seen.len() && seen[n] == s;
                assert(ids[n] < ids[i as int]);
            }
        }
        out.insert(p, id);
        proof {
            assert forall|a: int, b: int| 0 <= a < b < out@.len() implies shown_before(
                slots,
                #[trigger] out@[a],
                #[trigger] out@[b],
            ) by {
                if a < p && b < p {
                    assert(shown_before(slots, before[a], before[b]));
                } else if a < p && b == p {
                    assert(before.contains(before[a]));
                } else if a < p && b > p {
                    assert(shown_before(slots, before[a], before[b - 1]));
                } else if a == p {
                    assert(slot_before(slots[id], slots[before[p as int]]));
                    if b - 1 > p {
                        assert(shown_before(slots, before[p as int], before[b - 1]));
                    }
                } else {
                    assert(shown_before(slots, before[a - 1], before[b - 1]));
                }
            }
            assert forall|x: usize| #[trigger] out@.contains(x) <==> ids.take(i + 1).contains(x) by {
                assert(ids.take(i + 1) == seen.push(id));
                if out@.contains(x) {
                    let j = choose|j: int| 0 <= j < out@.len() && out@[j] == x;
                    if j < p {
                        assert(before[j] == x);
                        assert(before.contains(x));
                        let n = choose|n: int| 0 <= n < seen.len() && seen[n] == x;
                        assert(seen.push(id)[n] == x);
                    } else if j > p {
                        assert(before[j - 1] == x);
                        assert(before.contains(x));
                        let n = choose|n: int| 0 <= n < seen.len() && seen[n] == x;
                        assert(seen.push(id)[n] == x);
                    } else {
                        assert(seen.push(id)[seen.len() as int] == x);
                    }
                }
                if seen.push(id).contains(x) {
                    let n = choose|n: int| 0 <= n < seen.push(id).len() && seen.push(id)[n] == x;
                    if n < seen.len() {
                        assert(seen[n] == x);
                        assert(seen.contains(x));
                        assert(before.contains(x));
                        let j = choose|j: int| 0 <= j < before.len() && before[j] == x;
                        if j < p {
                            assert(out@[j] == x);
                        } else {
                            assert(out@[j + 1] == x);
                        }
                    } else {
                        assert(out@[p as int] == x);
                    }
                }
            }
        }
    }
    proof {
        assert(ids.take(ids.len() as int) == ids);
    }
    out
}

/// The slot under `id`.
fn slot_at(school: &School, id: usize) -> (r: &Slot)
    requires
        school.slots@.contains_key(id),
    ensures
        *r == school.slots@[id],
{
    match school.slots.get(id) {
        Some(slot) => slot,
        None => vstd::pervasive::unreached(),
    }
}

/// The row of a teacher in the table of a laboratory.
#[derive(Debug)]
pub struct TeacherSchedule {
    pub teacher_name: String,
    /// For each slot, in the order in which the slots are shown, the grade
    /// that the teacher brings to the laboratory at that slot, if any.
    pub grades: Vec<Option<String>>,
}

/// The table of a laboratory.
#[derive(Debug)]
pub struct Schedule {
    pub lab_name: String,
    pub teachers: Vec<TeacherSchedule>,
}

/// All that is shown of a solution.
#[derive(Debug)]
pub struct Tabulated {
    pub schedules: Vec<Schedule>,
    pub warnings: Vec<String>,
    pub errors: Vec<String>,
}

/// A teacher's row as text.
pub struct TeacherRow {
    pub teacher_name: Seq<char>,
    pub grades: Seq<Option<Seq<char>>>,
}

/// A laboratory's table as text.
pub struct LabTable {
    pub lab_name: Seq<char>,
    pub teachers: Seq<TeacherRow>,
}

/// All that is shown, as text.
pub struct Shown {
    pub schedules: Seq<LabTable>,
    pub warnings: Seq<Seq<char>>,
    pub errors: Seq<Seq<char>>,
}

/// The text of a cell.
pub open spec fn cell_view(cell: Option<String>) -> Option<Seq<char>> {
    match cell {
        Some(name) => Some(name@),
        None => None,
    }
}

impl View for TeacherSchedule {
    type V = TeacherRow;

    open spec fn view(&self) -> TeacherRow {
        TeacherRow {
            teacher_name: self.teacher_name@,
            grades: self.grades@.map_values(|c: Option<String>| cell_view(c)),
        }
    }
}

impl View for Schedule {
    type V = LabTable;

    open spec fn view(&self) -> LabTable {
        LabTable {
            lab_name: self.lab_name@,
            teachers: self.teachers@.map_values(|t: TeacherSchedule| t@),
        }
    }
}

impl View for Tabulated {
    type V = Shown;

    open spec fn view(&self) -> Shown {
        Shown {
            schedules: self.schedules@.map_values(|s: Schedule| s@),
            warnings: self.warnings@.map_values(|w: String| w@),
            errors: self.errors@.map_values(|e: String| e@),
        }
    }
}

/// The name of the grade of the first of `group` that is held at `slot`.
pub open spec fn grade_at(school: &School, group: Seq<LabSlottedClass>, slot: usize) -> Option<Seq<char>>
    decreases group.len(),
{
    if group.len() == 0 {
        None
    } else if group[0].slot == slot {
        Some(school.grades@[school.classes@[group[0].class].grade].name@)
    } else {
        grade_at(school, group.drop_first(), slot)
    }
}

/// The row of `teacher`, whose placements in the laboratory are `group`.
pub open spec fn teacher_row(school: &School, teacher: usize, group: Seq<LabSlottedClass>, order: Seq<usize>) -> TeacherRow {
    TeacherRow {
        teacher_name: school.teachers@[teacher].name@,
        grades: order.map_values(|s: usize| grade_at(school, group, s)),
    }
}

/// The teachers of the classes placed.
pub open spec fn teachers_of(school: &School, group: Seq<LabSlottedClass>) -> Seq<usize> {
    group.map_values(|p: LabSlottedClass| school.classes@[p.class].teacher)
}

/// The laboratories of the placements.
pub open spec fn labs_of(slotted: Seq<LabSlottedClass>) -> Seq<usize> {
    slotted.map_values(|p: LabSlottedClass| p.lab)
}

/// The table of `lab`, whose placements are `group`: a row for each
/// teacher, in the order of the teachers' ids.
pub open spec fn lab_table(school: &School, lab: usize, group: Seq<LabSlottedClass>, order: Seq<usize>) -> LabTable {
    LabTable {
        lab_name: school.labs@[lab].name@,
        teachers: grouped(group, teachers_of(school, group)).map_values(
            |g: (usize, Seq<LabSlottedClass>)| teacher_row(school, g.0, g.1, order),
        ),
    }
}

/// The tables of the laboratories in which something is placed, in the
/// order of the laboratories' ids.
pub open spec fn schedules_of(school: &School, slotted: Seq<LabSlottedClass>, order: Seq<usize>) -> Seq<LabTable> {
    grouped(slotted, labs_of(slotted)).map_values(
        |g: (usize, Seq<LabSlottedClass>)| lab_table(school, g.0, g.1, order),
    )
}

/// What is said of a warning.
pub open spec fn warning_text(school: &School, w: Warning) -> Seq<char> {
    match w {
        Warning::UndesiredLab { class, was, got } => "A aula "@ + school.class_ref(class).text()
            + " não recebeu sua primeira opção de laboratório (era "@ + school.labs@[was].name@
            + ", recebeu "@ + school.labs@[got].name@ + ")."@,
    }
}

/// What is said of an error.
pub open spec fn error_text(school: &School, e: Error) -> Seq<char> {
    match e {
        Error::Missing(class) => "O sistema não foi capaz de alocar a aula "@ + school.class_ref(class).text()
            + " devido a regras restritas demais."@,
        Error::NoLabs(class) => "O sistema não alocou a aula "@ + school.class_ref(class).text()
            + " pois nenhum laboratório foi escolhido nas regras."@,
    }
}

/// All that is shown of the solution `sol`, the slots in the order `order`.
pub open spec fn shown(school: &School, sol: SolutionView, order: Seq<usize>) -> Shown {
    Shown {
        schedules: schedules_of(school, sol.slotted, order),
        warnings: sol.warnings.map_values(|w: Warning| warning_text(school, w)),
        errors: sol.errors.map_values(|e: Error| error_text(school, e)),
    }
}

/// The class of an error.
pub open spec fn error_class(e: Error) -> usize {
    match e {
        Error::Missing(class) => class,
        Error::NoLabs(class) => class,
    }
}

/// The solution speaks of classes and laboratories of the school only,
/// and the school is well formed.
pub open spec fn presentable(school: &School, sol: SolutionView) -> bool {
    &&& school.wf()
    &&& forall|i: int|
        0 <= i < sol.slotted.len() ==> school.labs@.contains_key((#[trigger] sol.slotted[i]).lab)
            && school.classes@.contains_key(sol.slotted[i].class)
    &&& forall|i: int|
        0 <= i < sol.warnings.len() ==> (#[trigger] sol.warnings[i] matches Warning::UndesiredLab {
            class,
            was,
            got,
        } && school.classes@.contains_key(class) && school.labs@.contains_key(was)
            && school.labs@.contains_key(got))
    &&& forall|i: int|
        0 <= i < sol.errors.len() ==> school.classes@.contains_key(error_class(#[trigger] sol.errors[i]))
}

/// What is in a group is in the data, under the group's key.
pub proof fn lemma_keyed<D>(data: Seq<D>, keys: Seq<usize>, k: usize, n: int)
    requires
        keys.len() == data.len(),
        0 <= n < keyed(data, keys, k).len(),
    ensures
        exists|i: int| 0 <= i < data.len() && keys[i] == k && #[trigger] data[i] == keyed(data, keys, k)[n],
    decreases data.len(),
{
    if data.len() > 0 {
        let before = keyed(data.drop_last(), keys.drop_last(), k);
        if n < before.len() {
            lemma_keyed(data.drop_last(), keys.drop_last(), k, n);
            let i = choose|i: int|
                0 <= i < data.drop_last().len() && keys.drop_last()[i] == k
                    && #[trigger] data.drop_last()[i] == before[n];
            assert(keys[i] == k && data[i] == keyed(data, keys, k)[n]);
        } else {
            assert(keys[data.len() - 1] == k && data[data.len() - 1] == keyed(data, keys, k)[n]);
        }
    }
}

/// The placements are of classes of the school.
pub open spec fn known_classes(school: &School, group: Seq<LabSlottedClass>) -> bool {
    forall|i: int| 0 <= i < group.len() ==> school.classes@.contains_key((#[trigger] group[i]).class)
}

/// The name of the grade that is held at `slot`.
fn grade_name_at(school: &School, group: &Vec<LabSlottedClass>, slot: usize) -> (r: Option<String>)
    requires
        school.wf(),
        known_classes(school, group@),
    ensures
        cell_view(r) == grade_at(school, group@, slot),
{
    proof {
        assert(group@.skip(0) == group@);
    }
    for i in 0..group.len()
        invariant
            school.wf(),
            known_classes(school, group@),
            grade_at(school, group@, slot) == grade_at(school, group@.skip(i as int), slot),
    {
        proof {
            assert(group@.skip(i as int).drop_first() == group@.skip(i + 1));
            assert(group@.skip(i as int)[0] == group@[i as int]);
            assert(school.classes@.contains_key(group@[i as int].class));
        }
        if group[i].slot == slot {
            let class = match school.classes.get(group[i].class) {
                Some(class) => class,
                None => vstd::pervasive::unreached(),
            };
            return match school.grades.get(class.grade) {
                Some(grade) => Some(grade.name.clone()),
                None => vstd::pervasive::unreached(),
            };
        }
    }
    None
}

/// The row of `teacher`.
fn teacher_schedule(school: &School, teacher: usize, group: &Vec<LabSlottedClass>, order: &Vec<usize>) -> (r:
    TeacherSchedule)
    requires
        school.wf(),
        known_classes(school, group@),
        school.teachers@.contains_key(teacher),
    ensures
        r@ == teacher_row(school, teacher, group@, order@),
{
    let mut grades: Vec<Option<String>> = Vec::new();
    for i in 0..order.len()
        invariant
            school.wf(),
            known_classes(school, group@),
            grades@.len() == i,
            forall|j: int| 0 <= j < i ==> cell_view(#[trigger] grades@[j]) == grade_at(school, group@, order@[j]),
    {
        grades.push(grade_name_at(school, group, order[i]));
    }
    let teacher_name = match school.teachers.get(teacher) {
        Some(t) => t.name.clone(),
        None => vstd::pervasive::unreached(),
    };
    let row = TeacherSchedule { teacher_name, grades };
    assert(row@.grades =~= teacher_row(school, teacher, group@, order@).grades);
    row
}

/// The teachers of the classes placed.
fn teacher_keys(school: &School, group: &Vec<LabSlottedClass>) -> (r: Vec<usize>)
    requires
        known_classes(school, group@),
    ensures
        r@ == teachers_of(school, group@),
{
    let mut keys: Vec<usize> = Vec::new();
    for i in 0..group.len()
        invariant
            known_classes(school, group@),
            keys@.len() == i,
            forall|j: int| 0 <= j < i ==> #[trigger] keys@[j] == school.classes@[group@[j].class].teacher,
    {
        assert(school.classes@.contains_key(group@[i as int].class));
        match school.classes.get(group[i].class) {
            Some(class) => keys.push(class.teacher),
            None => vstd::pervasive::unreached(),
        }
    }
    assert(keys@ =~= teachers_of(school, group@));
    keys
}

/// The table of `lab`.
fn lab_schedule(school: &School, lab: usize, group: &Vec<LabSlottedClass>, order: &Vec<usize>) -> (r: Schedule)
    requires
        school.wf(),
        known_classes(school, group@),
        school.labs@.contains_key(lab),
    ensures
        r@ == lab_table(school, lab, group@, order@),
{
    let keys = teacher_keys(school, group);
    let groups = group_by(group, &keys);
    let ghost want = grouped(group@, keys@);
    let mut teachers: Vec<TeacherSchedule> = Vec::new();
    proof {
        lemma_ids_of(keys@.to_set());
    }
    for g in 0..groups.len()
        invariant
            school.wf(),
            known_classes(school, group@),
            keys@ == teachers_of(school, group@),
            want == grouped(group@, keys@),
            groups_view(groups@) == want,
            forall|k: usize| #[trigger] ids_of(keys@.to_set()).contains(k) <==> keys@.to_set().contains(k),
            teachers@.len() == g,
            forall|j: int| 0 <= j < g ==> (#[trigger] teachers@[j])@ == teacher_row(school, want[j].0, want[j].1, order@),
    {
        let teacher = groups[g].0;
        let members = &groups[g].1;
        proof {
            assert(groups_view(groups@).len() == groups@.len());
            assert(want.len() == ids_of(keys@.to_set()).len());
            assert(groups_view(groups@)[g as int] == (teacher, members@));
            assert(want[g as int] == (teacher, keyed(group@, keys@, teacher)));
            assert(ids_of(keys@.to_set()).contains(ids_of(keys@.to_set())[g as int]));
            assert(keys@.contains(teacher));
            let n = choose|n: int| 0 <= n < keys@.len() && keys@[n] == teacher;
            assert(school.classes@.contains_key(group@[n].class));
            assert forall|i: int| 0 <= i < members@.len() implies school.classes@.contains_key(
                (#[trigger] members@[i]).class,
            ) by {
                lemma_keyed(group@, keys@, teacher, i);
            }
        }
        teachers.push(teacher_schedule(school, teacher, members, order));
    }
    let lab_name = match school.labs.get(lab) {
        Some(l) => l.name.clone(),
        None => vstd::pervasive::unreached(),
    };
    let table = Schedule { lab_name, teachers };
    assert(table@.teachers =~= lab_table(school, lab, group@, order@).teachers);
    table
}

/// The name of the laboratory under `lab`.
fn lab_name_of(school: &School, lab: usize) -> (r: &String)
    requires
        school.labs@.contains_key(lab),
    ensures
        r@ == school.labs@[lab].name@,
{
    match school.labs.get(lab) {
        Some(l) => &l.name,
        None => vstd::pervasive::unreached(),
    }
}

/// What is said of a warning.
fn warning_message(school: &School, w: Warning) -> (r: String)
    requires
        school.wf(),
        w matches Warning::UndesiredLab { class, was, got } && school.classes@.contains_key(class)
            && school.labs@.contains_key(was) && school.labs@.contains_key(got),
    ensures
        r@ == warning_text(school, w),
{
    match w {
        Warning::UndesiredLab { class, was, got } => {
            let class: ClassRef = school.get(class);
            let mut out = "A aula ".to_owned();
            out.append(class.to_string().as_str());
            out.append(" não recebeu sua primeira opção de laboratório (era ");
            out.append(lab_name_of(school, was).as_str());
            out.append(", recebeu ");
            out.append(lab_name_of(school, got).as_str());
            out.append(").");
            out
        },
    }
}

/// What is said of an error.
fn error_message(school: &School, e: Error) -> (r: String)
    requires
        school.wf(),
        school.classes@.contains_key(error_class(e)),
    ensures
        r@ == error_text(school, e),
{
    match e {
        Error::Missing(class) => {
            let class: ClassRef = school.get(class);
            let mut out = "O sistema não foi capaz de alocar a aula ".to_owned();
            out.append(class.to_string().as_str());
            out.append(" devido a regras restritas demais.");
            out
        },
        Error::NoLabs(class) => {
            let class: ClassRef = school.get(class);
            let mut out = "O sistema não alocou a aula ".to_owned();
            out.append(class.to_string().as_str());
            out.append(" pois nenhum laboratório foi escolhido nas regras.");
            out
        },
    }
}

/// Whether the solution can be shown for the school.
pub fn is_presentable(school: &School, solution: &Solution) -> (r: bool)
    ensures
        r == presentable(school, solution@),
{
    if !school.is_wf() {
        return false;
    }
    for i in 0..solution.slotted.len()
        invariant
            forall|j: int|
                0 <= j < i ==> school.labs@.contains_key((#[trigger] solution.slotted@[j]).lab)
                    && school.classes@.contains_key(solution.slotted@[j].class),
    {
        let p = solution.slotted[i];
        if school.labs.get(p.lab).is_none() || school.classes.get(p.class).is_none() {
            assert(solution@.slotted[i as int] == p);
            return false;
        }
    }
    for i in 0..solution.warnings.len()
        invariant
            forall|j: int|
                0 <= j < i ==> (#[trigger] solution.warnings@[j] matches Warning::UndesiredLab {
                    class,
                    was,
                    got,
                } && school.classes@.contains_key(class) && school.labs@.contains_key(was)
                    && school.labs@.contains_key(got)),
    {
        match solution.warnings[i] {
            Warning::UndesiredLab { class, was, got } => {
                if school.classes.get(class).is_none() || school.labs.get(was).is_none()
                    || school.labs.get(got).is_none() {
                    assert(solution@.warnings[i as int] == solution.warnings@[i as int]);
                    return false;
                }
            },
        }
    }
    for i in 0..solution.errors.len()
        invariant
            forall|j: int|
                0 <= j < i ==> school.classes@.contains_key(error_class(#[trigger] solution.errors@[j])),
    {
        let class = match solution.errors[i] {
            Error::Missing(class) => class,
            Error::NoLabs(class) => class,
        };
        if school.classes.get(class).is_none() {
            assert(solution@.errors[i as int] == solution.errors@[i as int]);
            return false;
        }
    }
    true
}

/// The laboratories of the placements.
fn lab_keys(slotted: &Vec<LabSlottedClass>) -> (r: Vec<usize>)
    ensures
        r@ == labs_of(slotted@),
{
    let mut keys: Vec<usize> = Vec::new();
    for i in 0..slotted.len()
        invariant
            keys@.len() == i,
            forall|j: int| 0 <= j < i ==> #[trigger] keys@[j] == slotted@[j].lab,
    {
        keys.push(slotted[i].lab);
    }
    assert(keys@ =~= labs_of(slotted@));
    keys
}

/// What is shown of the solution: a table for each laboratory in which a
/// class is placed, and a sentence for each warning and each error.
pub fn tabulate(school: &School, solution: Solution) -> (r: Tabulated)
    requires
        presentable(school, solution@),
    ensures
        exists|order: Seq<usize>| is_slot_order(school, order) && r@ == #[trigger] shown(school, solution@, order),
{
    let order = slot_order(school);
    let keys = lab_keys(&solution.slotted);
    let groups = group_by(&solution.slotted, &keys);
    let ghost want = grouped(solution.slotted@, keys@);
    let mut schedules: Vec<Schedule> = Vec::new();
    proof {
        lemma_ids_of(keys@.to_set());
    }
    for g in 0..groups.len()
        invariant
            presentable(school, solution@),
            keys@ == labs_of(solution.slotted@),
            want == grouped(solution.slotted@, keys@),
            groups_view(groups@) == want,
            forall|k: usize| #[trigger] ids_of(keys@.to_set()).contains(k) <==> keys@.to_set().contains(k),
            schedules@.len() == g,
            forall|j: int| 0 <= j < g ==> (#[trigger] schedules@[j])@ == lab_table(school, want[j].0, want[j].1, order@),
    {
        let lab = groups[g].0;
        let members = &groups[g].1;
        proof {
            assert(groups_view(groups@).len() == groups@.len());
            assert(want.len() == ids_of(keys@.to_set()).len());
            assert(groups_view(groups@)[g as int] == (lab, members@));
            assert(want[g as int] == (lab, keyed(solution.slotted@, keys@, lab)));
            assert(ids_of(keys@.to_set()).contains(ids_of(keys@.to_set())[g as int]));
            assert(keys@.contains(lab));
            let n = choose|n: int| 0 <= n < keys@.len() && keys@[n] == lab;
            assert(school.labs@.contains_key(solution@.slotted[n].lab));
            assert forall|i: int| 0 <= i < members@.len() implies school.classes@.contains_key(
                (#[trigger] members@[i]).class,
            ) by {
                lemma_keyed(solution.slotted@, keys@, lab, i);
                let m = choose|m: int|
                    0 <= m < solution.slotted@.len() && keys@[m] == lab && #[trigger] solution.slotted@[m]
                        == keyed(solution.slotted@, keys@, lab)[i];
                assert(school.classes@.contains_key(solution@.slotted[m].class));
            }
        }
        schedules.push(lab_schedule(school, lab, members, &order));
    }
    let mut warnings: Vec<String> = Vec::new();
    for i in 0..solution.warnings.len()
        invariant
            presentable(school, solution@),
            warnings@.len() == i,
            forall|j: int| 0 <= j < i ==> (#[trigger] warnings@[j])@ == warning_text(school, solution.warnings@[j]),
    {
        assert(solution@.warnings[i as int] == solution.warnings@[i as int]);
        warnings.push(warning_message(school, solution.warnings[i]));
    }
    let mut errors: Vec<String> = Vec::new();
    for i in 0..solution.errors.len()
        invariant
            presentable(school, solution@),
            errors@.len() == i,
            forall|j: int| 0 <= j < i ==> (#[trigger] errors@[j])@ == error_text(school, solution.errors@[j]),
    {
        assert(solution@.errors[i as int] == solution.errors@[i as int]);
        errors.push(error_message(school, solution.errors[i]));
    }
    let table = Tabulated { schedules, warnings, errors };
    proof {
        let want_all = shown(school, solution@, order@);
        assert(table@.schedules =~= want_all.schedules);
        assert(table@.warnings =~= want_all.warnings);
        assert(table@.errors =~= want_all.errors);
    }
    table
}

} // verus!
