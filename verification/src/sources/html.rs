//! The timetable of a school as a web page.
//!
//! The page holds a paragraph and a table for each grade. The paragraph
//! names the grade. The first row of the table is its head. Each other row
//! begins with a cell that holds a time and goes on with a cell for each
//! day of the week; such a cell holds the subject and the teacher of the
//! class that the grade has at that time, or it holds less and stands for
//! a free period.
use crate::school::Class;
use crate::school::Day;
use crate::school::School;
use crate::school::model::SchoolModel;
use crate::school::Slot;
use crate::school::SlottedClass;
use crate::school::Time;
use crate::school::time::time_of;
use crate::sources::register_labs;
use crate::sources::with_labs;
use crate::sources::LoadError;
use crate::text::chars_of;
use crate::text::join;
use crate::text::joined;
use crate::text::replace;
use crate::text::replaced;
use crate::text::string_of;
use crate::text::strip_prefix;
use crate::text::without_prefix;
use vstd::prelude::*;

verus! {

/// The day of the `i`-th column of days.
pub open spec fn day_at(i: int) -> Day {
    if i == 0 {
        Day::Monday
    } else if i == 1 {
        Day::Tuesday
    } else if i == 2 {
        Day::Wednesday
    } else if i == 3 {
        Day::Thursday
    } else {
        Day::Friday
    }
}

/// The day of the `i`-th column of days.
fn day(i: usize) -> (d: Day)
    requires
        i < 5,
    ensures
        d == day_at(i as int),
{
    if i == 0 {
        Day::Monday
    } else if i == 1 {
        Day::Tuesday
    } else if i == 2 {
        Day::Wednesday
    } else if i == 3 {
        Day::Thursday
    } else {
        Day::Friday
    }
}

/// A name as the page writes it, with a space for each no-break space.
pub open spec fn cleaned(s: Seq<char>) -> Seq<char> {
    replaced(s, '\u{a0}', ' ')
}

/// The name of the grade that a paragraph names: its text, without `Turma ` before it.
pub open spec fn grade_named_by(parts: Seq<Seq<char>>) -> Seq<char> {
    without_prefix(joined(parts), "Turma "@)
}

/// The school `m` after the cell `cell` of the grade `grade` at `slot` was
/// read: the slot is registered; where the cell holds two pieces of text
/// or more, the first is the subject and the second the teacher of a class
/// of the grade, which is registered with its subject and its teacher, and
/// with it that it is held at the slot.
pub open spec fn with_cell(m: SchoolModel, grade: usize, slot: Slot, cell: Seq<Seq<char>>) -> Result<
    SchoolModel,
    LoadError,
> {
    if !m.has_room() {
        Err(LoadError::TooLarge)
    } else {
        let m1 = SchoolModel { slots: m.slots.with(slot), ..m };
        if cell.len() >= 2 {
            let subject = cleaned(cell[0]);
            let teacher = cleaned(cell[1]);
            let class = Class {
                teacher: m.teachers.id_with(teacher),
                grade,
                subject: m.subjects.id_with(subject),
            };
            let edge = SlottedClass { slot: m.slots.id_with(slot), class: m.classes.id_with(class) };
            Ok(
                SchoolModel {
                    subjects: m.subjects.with(subject),
                    teachers: m.teachers.with(teacher),
                    classes: m.classes.with(class),
                    slotted_classes: m.slotted_classes.with(edge),
                    ..m1
                },
            )
        } else {
            Ok(m1)
        }
    }
}

/// The school after the first `n` cells behind the time of `row` were read,
/// the first for Monday.
pub open spec fn with_cells(m: SchoolModel, grade: usize, time: Time, row: Seq<Seq<Seq<char>>>, n: nat) -> Result<
    SchoolModel,
    LoadError,
>
    decreases n,
{
    if n == 0 {
        Ok(m)
    } else {
        match with_cells(m, grade, time, row, (n - 1) as nat) {
            Ok(before) => with_cell(before, grade, Slot { day: day_at(n - 1), time }, row[n as int]),
            Err(e) => Err(e),
        }
    }
}

/// The number of cells of `row` that stand for a day: those behind the first, five at most.
pub open spec fn day_cells(row: Seq<Seq<Seq<char>>>) -> nat {
    if row.len() == 0 {
        0
    } else if row.len() - 1 <= 5 {
        (row.len() - 1) as nat
    } else {
        5
    }
}

/// The school after the row `row`, the `r`-th of the `t`-th table, was read.
pub open spec fn with_row(m: SchoolModel, grade: usize, row: Seq<Seq<Seq<char>>>, t: usize, r: usize) -> Result<
    SchoolModel,
    LoadError,
> {
    if row.len() == 0 || row[0].len() == 0 {
        Err(LoadError::MissingTime { table: t, row: r })
    } else {
        match time_of(row[0][0]) {
            None => Err(LoadError::BadTime { table: t, row: r }),
            Some(time) => with_cells(m, grade, time, row, day_cells(row)),
        }
    }
}

/// The school after the first `n` rows of the `t`-th table were read. The first row is its head.
pub open spec fn with_rows(m: SchoolModel, grade: usize, rows: Seq<Seq<Seq<Seq<char>>>>, t: usize, n: nat) -> Result<
    SchoolModel,
    LoadError,
>
    decreases n,
{
    if n <= 1 {
        Ok(m)
    } else {
        match with_rows(m, grade, rows, t, (n - 1) as nat) {
            Ok(before) => with_row(before, grade, rows[n - 1], t, (n - 1) as usize),
            Err(e) => Err(e),
        }
    }
}

/// The school after the `t`-th table was read, which the paragraph `name` names.
pub open spec fn with_table(m: SchoolModel, name: Seq<Seq<char>>, rows: Seq<Seq<Seq<Seq<char>>>>, t: usize) -> Result<
    SchoolModel,
    LoadError,
> {
    if !m.has_room() {
        Err(LoadError::TooLarge)
    } else {
        let grade = grade_named_by(name);
        with_rows(
            SchoolModel { grades: m.grades.with(grade), ..m },
            m.grades.id_with(grade),
            rows,
            t,
            rows.len(),
        )
    }
}

/// The school after the first `n` tables were read, each with its paragraph.
pub open spec fn with_tables(
    m: SchoolModel,
    names: Seq<Seq<Seq<char>>>,
    tables: Seq<Seq<Seq<Seq<Seq<char>>>>>,
    n: nat,
) -> Result<SchoolModel, LoadError>
    decreases n,
{
    if n == 0 {
        Ok(m)
    } else {
        match with_tables(m, names, tables, (n - 1) as nat) {
            Ok(before) => with_table(before, names[n - 1], tables[n - 1], (n - 1) as usize),
            Err(e) => Err(e),
        }
    }
}

/// The number of tables that have a paragraph.
pub open spec fn named_tables(names: Seq<Seq<Seq<char>>>, tables: Seq<Seq<Seq<Seq<Seq<char>>>>>) -> nat {
    if names.len() <= tables.len() {
        names.len()
    } else {
        tables.len()
    }
}

/// The school that a page with the paragraphs `names` and the tables
/// `tables` describes, with the laboratories `labs`.
pub open spec fn timetable(
    names: Seq<Seq<Seq<char>>>,
    tables: Seq<Seq<Seq<Seq<Seq<char>>>>>,
    labs: Seq<Seq<char>>,
) -> Result<SchoolModel, LoadError> {
    match with_tables(SchoolModel::empty(), names, tables, named_tables(names, tables)) {
        Ok(m) => with_labs(m, labs, labs.len()),
        Err(e) => Err(e),
    }
}

/// Reads one cell of a day into the school.
fn read_cell(school: &mut School, grade: usize, slot: Slot, cell: &Vec<String>) -> (r: Result<
    (),
    LoadError,
>)
    requires
        old(school)@.wf(),
        old(school)@.grades.entries.contains_key(grade),
    ensures
        match r {
            Ok(_) => with_cell(old(school)@, grade, slot, cell.deep_view()) == Ok::<
                SchoolModel,
                LoadError,
            >(final(school)@) && final(school)@.wf() && final(school)@.grades == old(school)@.grades,
            Err(e) => with_cell(old(school)@, grade, slot, cell.deep_view()) == Err::<
                SchoolModel,
                LoadError,
            >(e),
        },
{
    if !school.has_room() {
        return Err(LoadError::TooLarge);
    }
    let slot_id = school.slot_id(slot);
    if cell.len() >= 2 {
        let subject = replace(cell[0].as_str(), '\u{a0}', ' ');
        let teacher = replace(cell[1].as_str(), '\u{a0}', ' ');
        let subject_id = school.subject_id(subject);
        let teacher_id = school.teacher_id(teacher);
        let class_id = school.class_id(Class { teacher: teacher_id, grade, subject: subject_id });
        school.slotted_class_id(SlottedClass { slot: slot_id, class: class_id });
        proof {
            assert(cell.deep_view()[0] == cell@[0]@);
            assert(cell.deep_view()[1] == cell@[1]@);
        }
    }
    Ok(())
}

/// Reads the row `row`, the `r`-th of the `t`-th table, into the school.
fn read_row(school: &mut School, grade: usize, row: &Vec<Vec<String>>, t: usize, r: usize) -> (res: Result<
    (),
    LoadError,
>)
    requires
        old(school)@.wf(),
        old(school)@.grades.entries.contains_key(grade),
    ensures
        match res {
            Ok(_) => with_row(old(school)@, grade, row.deep_view(), t, r) == Ok::<SchoolModel, LoadError>(
                final(school)@,
            ) && final(school)@.wf() && final(school)@.grades == old(school)@.grades,
            Err(e) => with_row(old(school)@, grade, row.deep_view(), t, r) == Err::<
                SchoolModel,
                LoadError,
            >(e),
        },
{
    let ghost cells = row.deep_view();
    if row.len() == 0 || row[0].len() == 0 {
        proof {
            if row.len() > 0 {
                assert(cells[0] == row@[0].deep_view());
            }
        }
        return Err(LoadError::MissingTime { table: t, row: r });
    }
    proof {
        assert(cells[0] == row@[0].deep_view());
        assert(cells[0][0] == row@[0]@[0]@);
    }
    let time = match Time::parse(row[0][0].as_str()) {
        Some(time) => time,
        None => {
            return Err(LoadError::BadTime { table: t, row: r });
        },
    };
    let n = if row.len() - 1 <= 5 {
        row.len() - 1
    } else {
        5
    };
    for i in 0..n
        invariant
            n == day_cells(cells),
            cells == row.deep_view(),
            n < row.len(),
            n <= 5,
            school@.wf(),
            school@.grades == old(school)@.grades,
            school@.grades.entries.contains_key(grade),
            with_row(old(school)@, grade, cells, t, r) == with_cells(
                old(school)@,
                grade,
                time,
                cells,
                n as nat,
            ),
            with_cells(old(school)@, grade, time, cells, i as nat) == Ok::<SchoolModel, LoadError>(school@),
    {
        proof {
            assert(cells[i + 1] == row@[i + 1].deep_view());
        }
        match read_cell(school, grade, Slot { day: day(i), time }, &row[i + 1]) {
            Ok(_) => {},
            Err(e) => {
                proof {
                    assert(with_cells(old(school)@, grade, time, cells, (i + 1) as nat) == Err::<
                        SchoolModel,
                        LoadError,
                    >(e));
                    lemma_cells_fail(old(school)@, grade, time, cells, (i + 1) as nat, n as nat);
                }
                return Err(e);
            },
        }
    }
    Ok(())
}

/// Once a cell of a row fails, the row fails in the same way.
proof fn lemma_cells_fail(m: SchoolModel, grade: usize, time: Time, row: Seq<Seq<Seq<char>>>, i: nat, n: nat)
    requires
        i <= n,
        with_cells(m, grade, time, row, i) is Err,
    ensures
        with_cells(m, grade, time, row, n) == with_cells(m, grade, time, row, i),
    decreases n - i,
{
    if i < n {
        lemma_cells_fail(m, grade, time, row, i, (n - 1) as nat);
    }
}

/// Once a row of a table fails, the table fails in the same way.
proof fn lemma_rows_fail(m: SchoolModel, grade: usize, rows: Seq<Seq<Seq<Seq<char>>>>, t: usize, i: nat, n: nat)
    requires
        i <= n,
        with_rows(m, grade, rows, t, i) is Err,
    ensures
        with_rows(m, grade, rows, t, n) == with_rows(m, grade, rows, t, i),
    decreases n - i,
{
    if i < n {
        lemma_rows_fail(m, grade, rows, t, i, (n - 1) as nat);
    }
}

/// Once a table of a page fails, the page fails in the same way.
proof fn lemma_tables_fail(
    m: SchoolModel,
    names: Seq<Seq<Seq<char>>>,
    tables: Seq<Seq<Seq<Seq<Seq<char>>>>>,
    i: nat,
    n: nat,
)
    requires
        i <= n,
        with_tables(m, names, tables, i) is Err,
    ensures
        with_tables(m, names, tables, n) == with_tables(m, names, tables, i),
    decreases n - i,
{
    if i < n {
        lemma_tables_fail(m, names, tables, i, (n - 1) as nat);
    }
}

/// Reads the `t`-th table, which the paragraph `name` names, into the school.
fn read_table(school: &mut School, name: &Vec<String>, rows: &Vec<Vec<Vec<String>>>, t: usize) -> (res: Result<
    (),
    LoadError,
>)
    requires
        old(school)@.wf(),
    ensures
        match res {
            Ok(_) => with_table(old(school)@, name.deep_view(), rows.deep_view(), t) == Ok::<
                SchoolModel,
                LoadError,
            >(final(school)@) && final(school)@.wf(),
            Err(e) => with_table(old(school)@, name.deep_view(), rows.deep_view(), t) == Err::<
                SchoolModel,
                LoadError,
            >(e),
        },
{
    if !school.has_room() {
        return Err(LoadError::TooLarge);
    }
    let text = join(name);
    let prefix = chars_of("Turma ");
    let grade = school.grade_id(string_of(&strip_prefix(&text, &prefix)));
    let ghost named = school@;
    let ghost sheet = rows.deep_view();
    let mut r: usize = 1;
    while r < rows.len()
        invariant
            1 <= r,
            r <= rows.len() || r == 1,
            sheet == rows.deep_view(),
            school@.wf(),
            school@.grades == named.grades,
            school@.grades.entries.contains_key(grade),
            with_table(old(school)@, name.deep_view(), sheet, t) == with_rows(
                named,
                grade,
                sheet,
                t,
                rows.len() as nat,
            ),
            with_rows(named, grade, sheet, t, r as nat) == Ok::<SchoolModel, LoadError>(school@),
        decreases rows.len() - r,
    {
        proof {
            assert(sheet[r as int] == rows@[r as int].deep_view());
        }
        match read_row(school, grade, &rows[r], t, r) {
            Ok(_) => {},
            Err(e) => {
                proof {
                    assert(with_rows(named, grade, sheet, t, (r + 1) as nat) == Err::<
                        SchoolModel,
                        LoadError,
                    >(e));
                    lemma_rows_fail(named, grade, sheet, t, (r + 1) as nat, rows.len() as nat);
                }
                return Err(e);
            },
        }
        r += 1;
    }
    proof {
        if rows.len() == 0 {
            assert(with_rows(named, grade, sheet, t, 0) == Ok::<SchoolModel, LoadError>(named));
            assert(with_rows(named, grade, sheet, t, 1) == Ok::<SchoolModel, LoadError>(named));
        }
        assert(with_rows(named, grade, sheet, t, rows.len() as nat) == Ok::<SchoolModel, LoadError>(school@));
    }
    Ok(())
}

impl School {
    /// The school that a page describes: `names` holds the pieces of text
    /// of each paragraph of the page, `tables` holds for each table its
    /// rows, for each row its cells and for each cell its pieces of text,
    /// and `labs` holds the names of the laboratories.
    pub fn from_timetable(
        names: &Vec<Vec<String>>,
        tables: &Vec<Vec<Vec<Vec<String>>>>,
        labs: Vec<String>,
    ) -> (r: Result<School, LoadError>)
        ensures
            match r {
                Ok(school) => timetable(names.deep_view(), tables.deep_view(), labs.deep_view()) == Ok::<
                    SchoolModel,
                    LoadError,
                >(school@) && school.wf(),
                Err(e) => timetable(names.deep_view(), tables.deep_view(), labs.deep_view()) == Err::<
                    SchoolModel,
                    LoadError,
                >(e),
            },
    {
        let mut school = School::new();
        let n = if names.len() <= tables.len() {
            names.len()
        } else {
            tables.len()
        };
        let ghost pages = names.deep_view();
        let ghost sheets = tables.deep_view();
        proof {
            school.lemma_wf();
        }
        for t in 0..n
            invariant
                n == named_tables(pages, sheets),
                pages == names.deep_view(),
                sheets == tables.deep_view(),
                school@.wf(),
                with_tables(SchoolModel::empty(), pages, sheets, t as nat) == Ok::<SchoolModel, LoadError>(
                    school@,
                ),
        {
            proof {
                assert(pages[t as int] == names@[t as int].deep_view());
                assert(sheets[t as int] == tables@[t as int].deep_view());
            }
            match read_table(&mut school, &names[t], &tables[t], t) {
                Ok(_) => {},
                Err(e) => {
                    proof {
                        assert(with_tables(SchoolModel::empty(), pages, sheets, (t + 1) as nat) == Err::<
                            SchoolModel,
                            LoadError,
                        >(e));
                        lemma_tables_fail(SchoolModel::empty(), pages, sheets, (t + 1) as nat, n as nat);
                    }
                    return Err(e);
                },
            }
        }
        match register_labs(&mut school, labs) {
            Ok(_) => {},
            Err(e) => {
                return Err(e);
            },
        }
        proof {
            school.lemma_wf();
        }
        Ok(school)
    }
}

/// The text that `encoding_rs` decodes `bytes` to as windows-1252, and
/// whether it found malformed sequences in them.
pub uninterp spec fn decoded(bytes: Seq<u8>) -> (Seq<char>, bool);

/// For each element of the document `html` that the selector `selector`
/// selects, the pieces of text under it, as `scraper` finds them; `None`
/// where `scraper` cannot read the selector.
pub uninterp spec fn texts_in(html: Seq<char>, selector: Seq<char>) -> Option<Seq<Seq<Seq<char>>>>;

/// For each element of the document `html` that `table` selects, for each
/// element under it that `row` selects, for each element under that which
/// `cell` selects, the pieces of text under it, as `scraper` finds them;
/// `None` where `scraper` cannot read one of the selectors.
pub uninterp spec fn cell_texts_in(html: Seq<char>, table: Seq<char>, row: Seq<char>, cell: Seq<char>) -> Option<
    Seq<Seq<Seq<Seq<Seq<char>>>>>,
>;

/// Decodes `bytes` with `encoding_rs::Encoding::decode` of
/// `encoding_rs::WINDOWS_1252`. That function decodes as windows-1252
/// unless the bytes begin with a byte order mark of another encoding, puts
/// U+FFFD for each malformed sequence and says whether there was one. It
/// panics where the size of its buffer, up to three times the number of
/// bytes and three more, cannot be reckoned or allocated; the bound on the
/// number of bytes keeps clear of that. The result depends on the bytes
/// alone, so it is named.
#[verifier::external_body]
fn decode(bytes: &[u8]) -> (r: (String, bool))
    requires
        bytes@.len() <= usize::MAX / 8,
    ensures
        (r.0@, r.1) == decoded(bytes@),
{
    let (text, _, malformed) = encoding_rs::WINDOWS_1252.decode(bytes);
    (text.into_owned(), malformed)
}

/// Reads `selector` with `scraper::Selector::parse`, parses `html` with
/// `scraper::Html::parse_document`, and lists for each element that
/// `scraper::Html::select` yields the pieces of text that
/// `scraper::ElementRef::text` yields for it, both in document order. The
/// result depends on the two texts alone, so it is named.
#[verifier::external_body]
fn texts(html: &str, selector: &str) -> (r: Option<Vec<Vec<String>>>)
    ensures
        match r {
            Some(found) => texts_in(html@, selector@) == Some(found.deep_view()),
            None => texts_in(html@, selector@) is None,
        },
{
    let selector = scraper::Selector::parse(selector).ok()?;
    let document = scraper::Html::parse_document(html);
    Some(document.select(&selector).map(|e| e.text().map(String::from).collect()).collect())
}

/// Reads the three selectors with `scraper::Selector::parse`, parses `html`
/// with `scraper::Html::parse_document`, and lists the elements that
/// `scraper::Html::select` yields for `table`, under each of them those
/// that `scraper::ElementRef::select` yields for `row`, under each of these
/// those that it yields for `cell`, and for each of the last the pieces of
/// text that `scraper::ElementRef::text` yields, all in document order.
/// The result depends on the four texts alone, so it is named.
#[verifier::external_body]
fn cell_texts(html: &str, table: &str, row: &str, cell: &str) -> (r: Option<Vec<Vec<Vec<Vec<String>>>>>)
    ensures
        match r {
            Some(found) => cell_texts_in(html@, table@, row@, cell@) == Some(found.deep_view()),
            None => cell_texts_in(html@, table@, row@, cell@) is None,
        },
{
    let table = scraper::Selector::parse(table).ok()?;
    let row = scraper::Selector::parse(row).ok()?;
    let cell = scraper::Selector::parse(cell).ok()?;
    let document = scraper::Html::parse_document(html);
    let texts = |c: scraper::ElementRef| c.text().map(String::from).collect();
    let cells = |r: scraper::ElementRef| r.select(&cell).map(texts).collect();
    Some(document.select(&table).map(|t| t.select(&row).map(cells).collect()).collect())
}

/// A school that was read from a page.
#[derive(Debug)]
pub struct Loaded {
    pub school: School,
    /// Whether the bytes of the page held sequences that are no text.
    pub malformed: bool,
}

/// The school that the page of the bytes `bytes` describes, with the
/// laboratories `labs`, and whether the bytes held malformed sequences. The
/// paragraphs of the page are its `p` elements; its tables are its `table`
/// elements, with their `tr` elements for rows and the `td` elements of
/// these for cells.
pub open spec fn page_school(bytes: Seq<u8>, labs: Seq<Seq<char>>) -> Result<(SchoolModel, bool), LoadError> {
    if bytes.len() > usize::MAX / 8 {
        Err(LoadError::TooLarge)
    } else {
        let page = decoded(bytes);
        match (texts_in(page.0, "p"@), cell_texts_in(page.0, "table"@, "tr"@, "td"@)) {
            (Some(names), Some(tables)) => match timetable(names, tables, labs) {
                Ok(m) => Ok((m, page.1)),
                Err(e) => Err(e),
            },
            _ => Err(LoadError::Selector),
        }
    }
}

/// Reads the school from the bytes of its page and the names of its laboratories.
pub fn load_school(bytes: &[u8], labs: Vec<String>) -> (r: Result<Loaded, LoadError>)
    ensures
        match r {
            Ok(loaded) => page_school(bytes@, labs.deep_view()) == Ok::<(SchoolModel, bool), LoadError>(
                (loaded.school@, loaded.malformed),
            ) && loaded.school.wf(),
            Err(e) => page_school(bytes@, labs.deep_view()) == Err::<(SchoolModel, bool), LoadError>(e),
        },
{
    if bytes.len() > usize::MAX / 8 {
        return Err(LoadError::TooLarge);
    }
    let (text, malformed) = decode(bytes);
    let names = match texts(text.as_str(), "p") {
        Some(names) => names,
        None => {
            return Err(LoadError::Selector);
        },
    };
    let tables = match cell_texts(text.as_str(), "table", "tr", "td") {
        Some(tables) => tables,
        None => {
            return Err(LoadError::Selector);
        },
    };
    match School::from_timetable(&names, &tables, labs) {
        Ok(school) => Ok(Loaded { school, malformed }),
        Err(e) => Err(e),
    }
}

} // verus!
