//! The persistence codec: what each line of the flat comma-separated format
//! means, how a whole text parses into a store, and how a store is written
//! back; with the proof that the two directions agree.

use vstd::prelude::*;
use crate::numbers::{
    i64_parse_result, i32_parse_result, int_of, render_int, parses_as_int, is_digit, all_digits,
    parse_i64_chars, parse_i32_chars, push_render_i64, push_render_i32, lemma_render_int_parses,
};
use crate::text::{
    split_seq, split_chars, piece_views, chars_of, string_of_chars, lemma_split_len,
    lemma_split_no_sep, lemma_split_first_piece, lemma_split_pieces,
};
use crate::store::{
    Food, FoodView, Foods, records_map, distinct_ids, is_ordered_export, export_of,
    lemma_ordered_export_unique, food_views,
    lemma_records_map_contains, lemma_records_map_get,
};

verus! {

/// Why a line failed to parse as a record.
#[derive(Clone, Copy, Debug, PartialEq, Eq, Structural)]
pub enum ParseError {
    /// The id, stock or price field is not an integer in range.
    InvalidNumber,
    /// The line is too short to hold the numeric fields.
    EmptyRecord,
    /// The name field is absent or empty.
    MissingField,
}

/// A recovered per-line failure: the 1-based line number, the error, and the
/// offending line.
pub struct Diagnostic {
    pub line: usize,
    pub error: ParseError,
    pub content: String,
}

/// The mathematical image of a diagnostic.
pub ghost struct DiagView {
    pub line: int,
    pub error: ParseError,
    pub content: Seq<char>,
}

impl View for Diagnostic {
    type V = DiagView;

    open spec fn view(&self) -> DiagView {
        DiagView { line: self.line as int, error: self.error, content: self.content@ }
    }
}

/// The views of a sequence of diagnostics.
pub open spec fn diag_views(s: Seq<Diagnostic>) -> Seq<DiagView> {
    s.map_values(|d: Diagnostic| d@)
}

/// What one line means: a record `id,name,stock,price`, or the first error
/// in field order (extra fields are ignored).
pub open spec fn spec_parse_line(line: Seq<char>) -> Result<FoodView, ParseError> {
    let fields = split_seq(line, ',');
    if i64_parse_result(fields[0]) is None {
        Err(ParseError::InvalidNumber)
    } else if fields.len() < 2 || fields[1].len() == 0 {
        Err(ParseError::MissingField)
    } else if fields.len() < 3 {
        Err(ParseError::EmptyRecord)
    } else if i32_parse_result(fields[2]) is None {
        Err(ParseError::InvalidNumber)
    } else if fields.len() < 4 {
        Err(ParseError::EmptyRecord)
    } else if i32_parse_result(fields[3]) is None {
        Err(ParseError::InvalidNumber)
    } else {
        Ok(
            FoodView {
                id: int_of(fields[0]),
                name: fields[1],
                stock: int_of(fields[2]),
                price: int_of(fields[3]),
            },
        )
    }
}

/// The records of a list of lines: empty lines and failing lines are
/// skipped, later records win on a repeated id.
pub open spec fn parse_lines_map(lines: Seq<Seq<char>>) -> Map<int, FoodView>
    decreases lines.len(),
{
    if lines.len() == 0 {
        Map::empty()
    } else {
        let prev = parse_lines_map(lines.drop_last());
        let l = lines.last();
        if l.len() == 0 {
            prev
        } else {
            match spec_parse_line(l) {
                Ok(f) => prev.insert(f.id, f),
                Err(_) => prev,
            }
        }
    }
}

/// The diagnostics of a list of lines, in line order, 1-based.
pub open spec fn parse_lines_diags(lines: Seq<Seq<char>>) -> Seq<DiagView>
    decreases lines.len(),
{
    if lines.len() == 0 {
        Seq::empty()
    } else {
        let prev = parse_lines_diags(lines.drop_last());
        let l = lines.last();
        if l.len() == 0 {
            prev
        } else {
            match spec_parse_line(l) {
                Ok(_) => prev,
                Err(e) => prev.push(
                    DiagView { line: lines.len() as int, error: e, content: l },
                ),
            }
        }
    }
}

/// The store a whole text parses to.
pub open spec fn spec_parse_map(text: Seq<char>) -> Map<int, FoodView> {
    parse_lines_map(split_seq(text, '\n'))
}

/// The diagnostics a whole text parses to.
pub open spec fn spec_parse_diags(text: Seq<char>) -> Seq<DiagView> {
    parse_lines_diags(split_seq(text, '\n'))
}

/// A record the format can carry faithfully: fields in range, and a
/// non-empty name free of the two separators.
pub open spec fn wf_record(f: FoodView) -> bool {
    &&& i64::MIN <= f.id <= i64::MAX
    &&& i32::MIN <= f.stock <= i32::MAX
    &&& i32::MIN <= f.price <= i32::MAX
    &&& f.name.len() > 0
    &&& forall|i: int|
        0 <= i < f.name.len() ==> (#[trigger] f.name[i]) != ',' && f.name[i] != '\n'
}

/// Parses one line as a record, exactly as `spec_parse_line` describes.
pub fn parse_food(line: &str) -> (r: Result<Food, ParseError>)
    ensures
        match r {
            Ok(f) => spec_parse_line(line@) == Ok::<FoodView, ParseError>(f@),
            Err(e) => spec_parse_line(line@) == Err::<FoodView, ParseError>(e),
        },
{
    let chars = chars_of(line);
    let fields = split_chars(&chars, ',');
    proof {
        lemma_split_len(line@, ',');
        assert(piece_views(fields@).len() >= 1);
        assert(piece_views(fields@)[0] == fields@[0]@);
    }
    let id = match parse_i64_chars(&fields[0]) {
        Some(v) => v,
        None => {
            return Err(ParseError::InvalidNumber);
        },
    };
    if fields.len() < 2 {
        return Err(ParseError::MissingField);
    }
    proof {
        assert(piece_views(fields@)[1] == fields@[1]@);
    }
    if fields[1].len() == 0 {
        return Err(ParseError::MissingField);
    }
    let name = string_of_chars(&fields[1]);
    if fields.len() < 3 {
        return Err(ParseError::EmptyRecord);
    }
    proof {
        assert(piece_views(fields@)[2] == fields@[2]@);
    }
    let stock = match parse_i32_chars(&fields[2]) {
        Some(v) => v,
        None => {
            return Err(ParseError::InvalidNumber);
        },
    };
    if fields.len() < 4 {
        return Err(ParseError::EmptyRecord);
    }
    proof {
        assert(piece_views(fields@)[3] == fields@[3]@);
    }
    let price = match parse_i32_chars(&fields[3]) {
        Some(v) => v,
        None => {
            return Err(ParseError::InvalidNumber);
        },
    };
    Ok(Food { id, name, stock, price })
}

/// A line that parses as a record, taken from a newline-free context,
/// yields a well-formed record keyed by its own id.
pub proof fn lemma_parse_line_wf(line: Seq<char>, f: FoodView)
    requires
        spec_parse_line(line) == Ok::<FoodView, ParseError>(f),
        forall|i: int| 0 <= i < line.len() ==> (#[trigger] line[i]) != '\n',
    ensures
        wf_record(f),
{
    let fields = split_seq(line, ',');
    assert(f.name == fields[1]);
    assert forall|i: int| 0 <= i < f.name.len() implies (#[trigger] f.name[i]) != ','
        && f.name[i] != '\n' by {
        lemma_split_pieces(line, ',', 1, i);
        let j = choose|j: int| 0 <= j < line.len() && line[j] == fields[1][i];
        assert(line[j] != '\n');
    }
}

/// Parses a whole text: the records of its parsable lines, and one
/// diagnostic per non-empty line that failed.
pub fn parse_foods(text: &str) -> (r: (Foods, Vec<Diagnostic>))
    ensures
        r.0.wf(),
        r.0@ == spec_parse_map(text@),
        diag_views(r.1@) == spec_parse_diags(text@),
{
    let chars = chars_of(text);
    let pieces = split_chars(&chars, '\n');
    let ghost lines = split_seq(text@, '\n');
    let mut store = Foods::new();
    let mut diags: Vec<Diagnostic> = Vec::new();
    let n = pieces.len();
    proof {
        assert(piece_views(pieces@) == lines);
        assert(lines.take(0) =~= Seq::<Seq<char>>::empty());
        assert(diag_views(diags@) =~= Seq::<DiagView>::empty());
    }
    let mut i: usize = 0;
    while i < n
        invariant
            i <= n,
            n == pieces@.len(),
            piece_views(pieces@) == lines,
            store.wf(),
            store@ == parse_lines_map(lines.take(i as int)),
            diag_views(diags@) == parse_lines_diags(lines.take(i as int)),
        decreases n - i,
    {
        proof {
            assert(lines.take(i + 1).drop_last() =~= lines.take(i as int));
            assert(lines.take(i + 1).last() == lines[i as int]);
            assert(piece_views(pieces@)[i as int] == pieces@[i as int]@);
        }
        if pieces[i].len() > 0 {
            let s = string_of_chars(&pieces[i]);
            proof {
                assert(s@ == lines[i as int]);
            }
            match parse_food(s.as_str()) {
                Ok(f) => {
                    store.add(f);
                },
                Err(e) => {
                    let ghost d_old = diag_views(diags@);
                    diags.push(Diagnostic { line: i + 1, error: e, content: s });
                    proof {
                        assert(diag_views(diags@) =~= d_old.push(
                            DiagView { line: i + 1, error: e, content: lines[i as int] },
                        ));
                        assert(lines.take(i + 1).len() == i + 1);
                    }
                },
            }
        }
        i += 1;
    }
    proof {
        assert(lines.take(n as int) =~= lines);
    }
    (store, diags)
}

/// The header line written at the top of every saved file.
pub open spec fn header_line() -> Seq<char> {
    seq![
        'i', 'd', ',', 'n', 'a', 'm', 'e', ',', 's', 't', 'o', 'c', 'k', ',', 'p', 'r', 'i',
        'c', 'e',
    ]
}

/// One record as a line of the format.
pub open spec fn render_line(f: FoodView) -> Seq<char> {
    render_int(f.id) + seq![','] + f.name + seq![','] + render_int(f.stock) + seq![',']
        + render_int(f.price)
}

/// The record lines, each ended by a newline.
pub open spec fn join_lines(entries: Seq<FoodView>) -> Seq<char>
    decreases entries.len(),
{
    if entries.len() == 0 {
        Seq::empty()
    } else {
        render_line(entries[0]) + seq!['\n'] + join_lines(entries.drop_first())
    }
}

/// The whole saved text: the header, then one line per record.
pub open spec fn serialization(entries: Seq<FoodView>) -> Seq<char> {
    header_line() + seq!['\n'] + join_lines(entries)
}

pub proof fn lemma_join_push(entries: Seq<FoodView>, f: FoodView)
    ensures
        join_lines(entries.push(f)) == join_lines(entries) + render_line(f) + seq!['\n'],
    decreases entries.len(),
{
    if entries.len() == 0 {
        assert(entries.push(f)[0] == f);
        assert(entries.push(f).drop_first() =~= Seq::<FoodView>::empty());
        assert(join_lines(Seq::<FoodView>::empty()) == Seq::<char>::empty());
        assert(join_lines(entries) == Seq::<char>::empty());
        assert(join_lines(entries.push(f)) == render_line(f) + seq!['\n'] + join_lines(
            entries.push(f).drop_first(),
        ));
        assert(join_lines(entries.push(f)) =~= join_lines(entries) + render_line(f) + seq!['\n']);
    } else {
        assert(entries.push(f)[0] == entries[0]);
        assert(entries.push(f).drop_first() =~= entries.drop_first().push(f));
        lemma_join_push(entries.drop_first(), f);
        assert(join_lines(entries.push(f)) == render_line(entries[0]) + seq!['\n'] + join_lines(
            entries.drop_first().push(f),
        ));
        assert(join_lines(entries) == render_line(entries[0]) + seq!['\n'] + join_lines(
            entries.drop_first(),
        ));
        assert(join_lines(entries.push(f)) =~= join_lines(entries) + render_line(f) + seq!['\n']);
    }
}

/// Writes the given records, in their order, in the saved format.
pub fn serialize_records(records: &Vec<Food>) -> (r: String)
    ensures
        r@ == serialization(food_views(records@)),
{
    let mut out = chars_of("id,name,stock,price");
    proof {
        reveal_strlit("id,name,stock,price");
        assert(out@ =~= header_line());
    }
    out.push('\n');
    proof {
        assert(food_views(records@).take(0) =~= Seq::<FoodView>::empty());
        assert(out@ =~= header_line() + seq!['\n'] + join_lines(food_views(records@).take(0)));
    }
    let n = records.len();
    let mut i: usize = 0;
    while i < n
        invariant
            i <= n,
            n == records@.len(),
            out@ == header_line() + seq!['\n'] + join_lines(food_views(records@).take(i as int)),
        decreases n - i,
    {
        let ghost before = out@;
        let ghost fv = food_views(records@)[i as int];
        push_render_i64(records[i].id, &mut out);
        out.push(',');
        let name_chars = chars_of(records[i].name.as_str());
        let ghost mid = out@;
        let mut k: usize = 0;
        while k < name_chars.len()
            invariant
                k <= name_chars@.len(),
                name_chars@ == fv.name,
                out@ == mid + fv.name.take(k as int),
            decreases name_chars@.len() - k,
        {
            out.push(name_chars[k]);
            proof {
                assert(out@ =~= mid + fv.name.take(k + 1));
            }
            k += 1;
        }
        proof {
            assert(fv.name.take(fv.name.len() as int) =~= fv.name);
        }
        out.push(',');
        push_render_i32(records[i].stock, &mut out);
        out.push(',');
        push_render_i32(records[i].price, &mut out);
        out.push('\n');
        proof {
            assert(out@ =~= before + render_line(fv) + seq!['\n']);
            lemma_join_push(food_views(records@).take(i as int), fv);
            assert(food_views(records@).take(i + 1) =~= food_views(records@).take(
                i as int,
            ).push(fv));
            assert(out@ =~= header_line() + seq!['\n'] + join_lines(
                food_views(records@).take(i + 1),
            ));
        }
        i += 1;
    }
    proof {
        assert(food_views(records@).take(n as int) =~= food_views(records@));
    }
    string_of_chars(&out)
}

/// Writes the store in the saved format: the header, then its records in
/// ascending id order; when every record is well-formed, parsing the text
/// back yields exactly the store again.
pub fn serialize_foods(foods: Foods) -> (r: String)
    requires
        foods.wf(),
    ensures
        is_ordered_export(export_of(foods@), foods@),
        r@ == serialization(export_of(foods@)),
        (forall|k: int| #[trigger]
            foods@.dom().contains(k) ==> wf_record(foods@[k])) ==> spec_parse_map(r@) == foods@,
{
    let ghost m = foods@;
    let v = foods.into_vec();
    let r = serialize_records(&v);
    proof {
        let entries = food_views(v@);
        assert(is_ordered_export(entries, m) && r@ == serialization(entries));
        assert(is_ordered_export(export_of(m), m));
        lemma_ordered_export_unique(export_of(m), entries, m);
        if forall|k: int| #[trigger] m.dom().contains(k) ==> wf_record(m[k]) {
            assert forall|i: int| 0 <= i < entries.len() implies wf_record(
                #[trigger] entries[i],
            ) by {
                assert(m.contains_pair(entries[i].id, entries[i]));
            }
            lemma_serialize_parse_round_trip(entries);
            lemma_export_records_map(entries, m);
        }
    }
    r
}

/// The header is not a record: its id field is not a number.
pub proof fn lemma_header_not_record()
    ensures
        spec_parse_line(header_line()) == Err::<FoodView, ParseError>(ParseError::InvalidNumber),
{
    let hd = seq!['i', 'd'];
    let tail = seq!['n', 'a', 'm', 'e', ',', 's', 't', 'o', 'c', 'k', ',', 'p', 'r', 'i', 'c', 'e'];
    assert(header_line() =~= hd + seq![','] + tail);
    assert(forall|i: int| 0 <= i < hd.len() ==> (#[trigger] hd[i]) != ',');
    lemma_split_first_piece(header_line(), ',', hd, tail);
    let fields = split_seq(header_line(), ',');
    assert(fields[0] == hd);
    assert(!is_digit('i'));
    assert(!all_digits(hd));
    assert('i' != '-' && 'i' != '+');
    assert(!parses_as_int(hd));
    assert(i64_parse_result(hd) is None);
}

/// The rendered line of a well-formed record has no newline.
pub proof fn lemma_render_line_no_newline(f: FoodView)
    requires
        wf_record(f),
    ensures
        forall|i: int| 0 <= i < render_line(f).len() ==> (#[trigger] render_line(f)[i]) != '\n',
{
    lemma_render_int_parses(f.id);
    lemma_render_int_parses(f.stock);
    lemma_render_int_parses(f.price);
    let a = render_int(f.id);
    let b = f.name;
    let c = render_int(f.stock);
    let d = render_int(f.price);
    let s = render_line(f);
    assert forall|i: int| 0 <= i < s.len() implies (#[trigger] s[i]) != '\n' by {
        assert(s == a + seq![','] + b + seq![','] + c + seq![','] + d);
        if i < a.len() {
            assert(s[i] == a[i]);
        } else if i == a.len() {
            assert(s[i] == ',');
        } else if i < a.len() + 1 + b.len() {
            assert(s[i] == b[i - a.len() - 1]);
        } else if i == a.len() + 1 + b.len() {
            assert(s[i] == ',');
        } else if i < a.len() + 1 + b.len() + 1 + c.len() {
            assert(s[i] == c[i - a.len() - b.len() - 2]);
        } else if i == a.len() + 1 + b.len() + 1 + c.len() {
            assert(s[i] == ',');
        } else {
            assert(s[i] == d[i - a.len() - b.len() - c.len() - 3]);
        }
    }
}

/// The rendered line of a well-formed record parses back to that record.
pub proof fn lemma_render_line_parses(f: FoodView)
    requires
        wf_record(f),
    ensures
        spec_parse_line(render_line(f)) == Ok::<FoodView, ParseError>(f),
{
    lemma_render_int_parses(f.id);
    lemma_render_int_parses(f.stock);
    lemma_render_int_parses(f.price);
    let a = render_int(f.id);
    let b = f.name;
    let c = render_int(f.stock);
    let d = render_int(f.price);
    let tail2 = c + seq![','] + d;
    let tail1 = b + seq![','] + tail2;
    assert(render_line(f) =~= a + seq![','] + tail1);
    lemma_split_first_piece(render_line(f), ',', a, tail1);
    lemma_split_first_piece(tail1, ',', b, tail2);
    lemma_split_first_piece(tail2, ',', c, d);
    lemma_split_no_sep(d, ',');
    let fields = split_seq(render_line(f), ',');
    assert(fields =~~= seq![a, b, c, d]);
    assert(fields.len() == 4);
    assert(i64_parse_result(a) == Some(f.id as i64));
    assert(i32_parse_result(c) == Some(f.stock as i32));
    assert(i32_parse_result(d) == Some(f.price as i32));
    assert(spec_parse_line(render_line(f)) == Ok::<FoodView, ParseError>(
        FoodView { id: int_of(a), name: b, stock: int_of(c), price: int_of(d) },
    ));
    assert(FoodView { id: int_of(a), name: b, stock: int_of(c), price: int_of(d) } == f);
}

proof fn lemma_rendered_lines_parse(entries: Seq<FoodView>)
    requires
        forall|i: int| 0 <= i < entries.len() ==> wf_record(#[trigger] entries[i]),
    ensures
        parse_lines_map(seq![header_line()] + entries.map_values(|f: FoodView| render_line(f)))
            == records_map(entries),
        parse_lines_diags(seq![header_line()] + entries.map_values(|f: FoodView| render_line(f)))
            == seq![
            DiagView { line: 1, error: ParseError::InvalidNumber, content: header_line() },
        ],
    decreases entries.len(),
{
    let lines = seq![header_line()] + entries.map_values(|f: FoodView| render_line(f));
    if entries.len() == 0 {
        assert(lines =~= seq![header_line()]);
        assert(lines.drop_last() =~= Seq::<Seq<char>>::empty());
        assert(lines.last() == header_line());
        assert(header_line().len() > 0);
        lemma_header_not_record();
        assert(parse_lines_map(Seq::<Seq<char>>::empty()) == Map::<int, FoodView>::empty());
        assert(parse_lines_diags(Seq::<Seq<char>>::empty()) == Seq::<DiagView>::empty());
        assert(records_map(entries) =~= Map::<int, FoodView>::empty());
        assert(lines.len() == 1);
        assert(parse_lines_map(lines) == parse_lines_map(lines.drop_last()));
        assert(parse_lines_diags(lines) == parse_lines_diags(lines.drop_last()).push(
            DiagView { line: 1, error: ParseError::InvalidNumber, content: header_line() },
        ));
        assert(parse_lines_diags(lines) =~= seq![
            DiagView { line: 1, error: ParseError::InvalidNumber, content: header_line() },
        ]);
    } else {
        let prev_entries = entries.drop_last();
        assert(forall|i: int|
            0 <= i < prev_entries.len() ==> wf_record(#[trigger] prev_entries[i]));
        lemma_rendered_lines_parse(prev_entries);
        let prev_lines = seq![header_line()] + prev_entries.map_values(
            |f: FoodView| render_line(f),
        );
        assert(lines.drop_last() =~= prev_lines);
        assert(lines.last() == render_line(entries.last()));
        lemma_render_line_parses(entries.last());
        assert(render_line(entries.last()).len() > 0) by {
            lemma_render_int_parses(entries.last().id);
        }
        assert(parse_lines_map(lines) == parse_lines_map(prev_lines).insert(
            entries.last().id,
            entries.last(),
        ));
        assert(parse_lines_diags(lines) == parse_lines_diags(prev_lines));
        assert(records_map(entries) == records_map(entries.drop_last()).insert(
            entries.last().id,
            entries.last(),
        ));
    }
}

proof fn lemma_split_join(entries: Seq<FoodView>)
    requires
        forall|i: int| 0 <= i < entries.len() ==> wf_record(#[trigger] entries[i]),
    ensures
        split_seq(join_lines(entries), '\n') == entries.map_values(|f: FoodView| render_line(f))
            + seq![Seq::<char>::empty()],
    decreases entries.len(),
{
    if entries.len() == 0 {
        assert(join_lines(entries) == Seq::<char>::empty());
        assert(split_seq(Seq::<char>::empty(), '\n') =~~= entries.map_values(
            |f: FoodView| render_line(f),
        ) + seq![Seq::<char>::empty()]);
    } else {
        let e0 = entries[0];
        let rest = entries.drop_first();
        assert(wf_record(e0));
        lemma_render_line_no_newline(e0);
        assert(join_lines(entries) == render_line(e0) + seq!['\n'] + join_lines(rest));
        assert(forall|i: int| 0 <= i < rest.len() ==> wf_record(#[trigger] rest[i]));
        lemma_split_join(rest);
        lemma_split_first_piece(join_lines(entries), '\n', render_line(e0), join_lines(rest));
        assert(split_seq(join_lines(entries), '\n') == seq![render_line(e0)] + split_seq(
            join_lines(rest),
            '\n',
        ));
        assert(split_seq(join_lines(entries), '\n') =~= entries.map_values(
            |f: FoodView| render_line(f),
        ) + seq![Seq::<char>::empty()]);
    }
}

/// Round trip: the saved text of any well-formed records parses back to
/// exactly those records, and the header is the only line reported.
pub proof fn lemma_serialize_parse_round_trip(entries: Seq<FoodView>)
    requires
        forall|i: int| 0 <= i < entries.len() ==> wf_record(#[trigger] entries[i]),
    ensures
        spec_parse_map(serialization(entries)) == records_map(entries),
        spec_parse_diags(serialization(entries)) == seq![
            DiagView { line: 1, error: ParseError::InvalidNumber, content: header_line() },
        ],
{
    let text = serialization(entries);
    let rendered = entries.map_values(|f: FoodView| render_line(f));
    assert(forall|i: int| 0 <= i < header_line().len() ==> (#[trigger] header_line()[i]) != '\n');
    lemma_split_first_piece(text, '\n', header_line(), join_lines(entries));
    lemma_split_join(entries);
    let lines = split_seq(text, '\n');
    assert(lines == seq![header_line()] + (rendered + seq![Seq::<char>::empty()]));
    let base = seq![header_line()] + rendered;
    assert(lines =~= base + seq![Seq::<char>::empty()]);
    assert(lines.drop_last() =~= base);
    assert(lines.last() == Seq::<char>::empty());
    assert(parse_lines_map(lines) == parse_lines_map(base));
    assert(parse_lines_diags(lines) == parse_lines_diags(base));
    lemma_rendered_lines_parse(entries);
}

/// Every record a text parses to is well-formed and keyed by its own id.
pub proof fn lemma_parse_map_wf(text: Seq<char>)
    ensures
        forall|k: int| #[trigger]
            spec_parse_map(text).dom().contains(k) ==> wf_record(spec_parse_map(text)[k])
                && spec_parse_map(text)[k].id == k,
{
    let lines = split_seq(text, '\n');
    assert forall|k: int, j: int|
        0 <= j <= lines.len() && #[trigger] parse_lines_map(lines.take(j)).dom().contains(
            k,
        ) implies wf_record(parse_lines_map(lines.take(j))[k]) && parse_lines_map(lines.take(j))[k].id
        == k by {
        lemma_parse_lines_wf_rec(text, k, j);
    }
    assert(lines.take(lines.len() as int) =~= lines);
    assert forall|k: int| #[trigger] spec_parse_map(text).dom().contains(k) implies wf_record(
        spec_parse_map(text)[k],
    ) && spec_parse_map(text)[k].id == k by {
        assert(parse_lines_map(lines.take(lines.len() as int)).dom().contains(k));
    }
}

proof fn lemma_parse_lines_wf_rec(text: Seq<char>, k: int, j: int)
    requires
        0 <= j <= split_seq(text, '\n').len(),
        parse_lines_map(split_seq(text, '\n').take(j)).dom().contains(k),
    ensures
        wf_record(parse_lines_map(split_seq(text, '\n').take(j))[k]),
        parse_lines_map(split_seq(text, '\n').take(j))[k].id == k,
    decreases j,
{
    let lines = split_seq(text, '\n');
    let cur = lines.take(j);
    assert(j > 0);
    assert(cur.drop_last() =~= lines.take(j - 1));
    let l = cur.last();
    assert(l == lines[j - 1]);
    if l.len() != 0 && spec_parse_line(l) is Ok {
        let f = match spec_parse_line(l) {
            Ok(f) => f,
            Err(_) => arbitrary(),
        };
        assert(forall|i: int| 0 <= i < l.len() ==> (#[trigger] l[i]) != '\n') by {
            assert forall|i: int| 0 <= i < l.len() implies (#[trigger] l[i]) != '\n' by {
                lemma_split_pieces(text, '\n', j - 1, i);
            }
        }
        lemma_parse_line_wf(l, f);
        if k != f.id {
            lemma_parse_lines_wf_rec(text, k, j - 1);
        }
    } else {
        lemma_parse_lines_wf_rec(text, k, j - 1);
    }
}

/// An ordered export of a map lists exactly its records.
pub proof fn lemma_export_records_map(entries: Seq<FoodView>, m: Map<int, FoodView>)
    requires
        is_ordered_export(entries, m),
    ensures
        records_map(entries) == m,
{
    assert(distinct_ids(entries));
    lemma_records_map_contains(entries);
    assert forall|k: int| #[trigger] records_map(entries).dom().contains(k) implies m.dom().contains(
        k,
    ) && records_map(entries)[k] == m[k] by {
        let i = choose|i: int| 0 <= i < entries.len() && (#[trigger] entries[i]).id == k;
        lemma_records_map_get(entries, i);
        assert(m.contains_pair(entries[i].id, entries[i]));
    }
    assert forall|k: int| #[trigger] m.dom().contains(k) implies records_map(
        entries,
    ).dom().contains(k) by {
        let i = choose|i: int| 0 <= i < entries.len() && (#[trigger] entries[i]).id == k;
        assert(entries[i].id == k);
    }
    assert(records_map(entries) =~= m);
}

/// Parsing, saving what was parsed, and parsing again yields the same
/// records: the round trip is idempotent from the first parse on.
pub proof fn lemma_parse_serialize_parse(text: Seq<char>, entries: Seq<FoodView>)
    requires
        is_ordered_export(entries, spec_parse_map(text)),
    ensures
        spec_parse_map(serialization(entries)) == spec_parse_map(text),
{
    lemma_parse_map_wf(text);
    assert forall|i: int| 0 <= i < entries.len() implies wf_record(#[trigger] entries[i]) by {
        assert(spec_parse_map(text).contains_pair(entries[i].id, entries[i]));
    }
    lemma_serialize_parse_round_trip(entries);
    lemma_export_records_map(entries, spec_parse_map(text));
}

} // verus!
