//! The evaluation files and their diff.
//!
//! An evaluation is one compressed file with a line per attr, in order:
//! `attr`, a tab and the derivation, or a bare `attr` where evaluating it
//! threw. A derivation is stored without the `/nix/store/` before it and the
//! `.drv` behind it, which every line would repeat. Two files are compared by
//! walking their lines side by side.

use vstd::prelude::*;
use vstd::relations::*;
use vstd::string::*;
use vstd::utf8::*;

use crate::model::AttrEval;
use crate::ordered;
use crate::ordered::{Ranked, StringMap};
use crate::paths;
use crate::text;

verus! {

/// Why an evaluation file could not be written or read.
#[derive(Debug, Clone, Copy, PartialEq, Eq, Structural)]
pub enum EvalFileError {
    /// Compressing the lines failed.
    Compress,
    /// The file is no compressed data.
    Decompress,
    /// The lines are not UTF-8.
    NotUtf8,
}

/// The file of an evaluation below the cache directory, by the tree and the
/// profile-qualified system.
pub fn eval_path(root: &str, tree: &str, system: &str) -> (r: String)
    ensures
        r@ == paths::joined(paths::joined(root@, system@), tree@ + ".tsv.zst"@),
{
    let dir = paths::join(root, system);
    let mut name = tree.to_owned();
    name.append(".tsv.zst");
    paths::join(dir.as_str(), name.as_str())
}

// --- derivation paths --------------------------------------------------------

/// Whether `drv` has the shape `/nix/store/….drv`.
pub open spec fn store_drv(drv: Seq<char>) -> bool {
    &&& text::begins(drv, "/nix/store/"@)
    &&& text::ends(drv.skip("/nix/store/"@.len() as int), ".drv"@)
}

/// The stored form of a derivation path: what stands between `/nix/store/` and
/// `.drv`; a path of another shape is stored as it is.
pub open spec fn stripped(drv: Seq<char>) -> Seq<char> {
    if store_drv(drv) {
        drv.subrange("/nix/store/"@.len() as int, drv.len() - ".drv"@.len())
    } else {
        drv
    }
}

/// The path of a stored derivation.
pub open spec fn restored(field: Seq<char>) -> Seq<char> {
    "/nix/store/"@ + field + ".drv"@
}

/// A derivation path of the store's shape is restored from its stored form.
pub proof fn law_strip_then_restore(drv: Seq<char>)
    requires
        store_drv(drv),
    ensures
        restored(stripped(drv)) == drv,
{
    let p = "/nix/store/"@;
    let s = ".drv"@;
    assert(drv.take(p.len() as int) == p);
    let rest = drv.skip(p.len() as int);
    assert(rest.skip(rest.len() - s.len()) == s);
    assert forall|i: int| 0 <= i < drv.len() implies restored(stripped(drv))[i] == drv[i] by {
        if i < p.len() {
            assert(drv.take(p.len() as int)[i] == drv[i]);
        } else if i >= drv.len() - s.len() {
            assert(rest.skip(rest.len() - s.len())[i - (drv.len() - s.len())] == drv[i]);
        }
    }
    assert(restored(stripped(drv)) =~= drv);
}

/// Any field is the stored form of the path restored from it, so that no two
/// fields stand for one derivation.
pub proof fn law_restore_then_strip(field: Seq<char>)
    ensures
        store_drv(restored(field)),
        stripped(restored(field)) == field,
{
    let p = "/nix/store/"@;
    let s = ".drv"@;
    let d = restored(field);
    assert(d.take(p.len() as int) =~= p);
    let rest = d.skip(p.len() as int);
    assert(rest =~= field + s);
    assert(rest.skip(rest.len() - s.len()) =~= s);
    assert(d.subrange(p.len() as int, d.len() - s.len()) =~= field);
}

/// The stored form of a derivation path.
pub fn strip_drv(drv: &str) -> (r: String)
    ensures
        r@ == stripped(drv@),
{
    let v = text::chars_of(drv);
    let p = text::chars_of("/nix/store/");
    let s = text::chars_of(".drv");
    proof {
        reveal_strlit("/nix/store/");
        reveal_strlit(".drv");
        assert(v@.skip(0) =~= v@);
    }
    if !text::stands_at(v.as_slice(), p.as_slice(), 0) {
        return text::copy(drv);
    }
    if v.len() - p.len() < s.len() {
        return text::copy(drv);
    }
    let at = v.len() - s.len();
    proof {
        let rest = v@.skip(p@.len() as int);
        assert(rest.skip(rest.len() - s@.len()) =~= v@.skip(at as int));
        assert(v@.skip(at as int).take(s@.len() as int) =~= v@.skip(at as int));
    }
    if !text::stands_at(v.as_slice(), s.as_slice(), at) {
        return text::copy(drv);
    }
    text::string_between(v.as_slice(), p.len(), at)
}

/// The path of a stored derivation.
pub fn restore_path(field: &str) -> (r: String)
    ensures
        r@ == restored(field@),
{
    let mut r = "/nix/store/".to_owned();
    r.append(field);
    r.append(".drv");
    r
}

/// An optional field restored.
pub open spec fn restored_opt(field: Option<Seq<char>>) -> Option<Seq<char>> {
    match field {
        Some(f) => Some(restored(f)),
        None => None,
    }
}

/// The path of a stored derivation, where there is one.
pub fn restore_drv(field: Option<&str>) -> (r: Option<String>)
    ensures
        text::opt(r) == restored_opt(
            match field {
                Some(f) => Some(f@),
                None => None,
            },
        ),
{
    match field {
        Some(f) => Some(restore_path(f)),
        None => None,
    }
}

// --- rows --------------------------------------------------------------------

/// One row: the attr, and its derivation in stored form, or none where
/// evaluating the attr threw.
pub type EvalRow = (String, Option<String>);

/// A row as texts.
pub type Row = (Seq<char>, Option<Seq<char>>);

/// A row as texts.
pub open spec fn row_of(r: EvalRow) -> Row {
    (r.0@, text::opt(r.1))
}

/// Rows as texts.
pub open spec fn rows_of(v: Seq<EvalRow>) -> Seq<Row> {
    v.map_values(|r: EvalRow| row_of(r))
}

/// Evaluated attrs as texts.
pub open spec fn evals_of(v: Seq<AttrEval>) -> Seq<Row> {
    v.map_values(|a: AttrEval| a@)
}

/// Whether a derivation may stand before another: none stands first.
pub open spec fn drv_upto(a: Option<Seq<char>>, b: Option<Seq<char>>) -> bool {
    match (a, b) {
        (None, _) => true,
        (Some(_), None) => false,
        (Some(x), Some(y)) => text::lex_upto(x, y),
    }
}

/// Whether a row may stand before another: by attr, then by derivation.
pub open spec fn row_upto(a: Row, b: Row) -> bool {
    text::lex_before(a.0, b.0) || (a.0 == b.0 && drv_upto(a.1, b.1))
}

impl Ranked for EvalRow {
    type Key = Row;

    open spec fn key(self) -> Row {
        row_of(self)
    }

    open spec fn upto(a: Row, b: Row) -> bool {
        row_upto(a, b)
    }

    proof fn order_is_total() {
        let rel = |a: Row, b: Row| Self::upto(a, b);
        assert forall|a: Row, b: Row, c: Row| #[trigger] rel(a, b) && #[trigger] rel(b, c) implies rel(
            a,
            c,
        ) by {
            text::lemma_lex_order(a.0, b.0, c.0);
            text::lemma_lex_order(a.0, b.0, a.0);
            if a.1 is Some && b.1 is Some && c.1 is Some {
                text::lemma_lex_order(a.1->0, b.1->0, c.1->0);
            }
        }
        assert forall|a: Row, b: Row| #[trigger] rel(a, b) && #[trigger] rel(b, a) implies a == b by {
            text::lemma_lex_order(a.0, b.0, a.0);
            if a.1 is Some && b.1 is Some {
                text::lemma_lex_order(a.1->0, b.1->0, a.1->0);
            }
        }
        assert forall|a: Row, b: Row| #[trigger] rel(a, b) || #[trigger] rel(b, a) by {
            text::lemma_lex_order(a.0, b.0, a.0);
            if a.1 is Some && b.1 is Some {
                text::lemma_lex_order(a.1->0, b.1->0, a.1->0);
            }
        }
        assert(reflexive(rel));
        assert(total_ordering(rel));
        assert(rel =~= (|a: Self::Key, b: Self::Key| Self::upto(a, b)));
    }

    fn ranks_upto(&self, other: &Self) -> (r: bool) {
        proof {
            text::lemma_lex_order(self.0@, other.0@, self.0@);
        }
        if text::before(self.0.as_str(), other.0.as_str()) {
            return true;
        }
        if text::before(other.0.as_str(), self.0.as_str()) {
            return false;
        }
        match (&self.1, &other.1) {
            (None, _) => true,
            (Some(_), None) => false,
            (Some(x), Some(y)) => {
                proof {
                    text::lemma_lex_order(x@, y@, x@);
                }
                !text::before(y.as_str(), x.as_str())
            },
        }
    }
}

/// The line of a row: a bare attr where there is no derivation.
pub open spec fn row_line(r: Row) -> Seq<char> {
    match r.1 {
        Some(d) => r.0.push('\t') + d.push('\n'),
        None => r.0.push('\n'),
    }
}

/// The lines of rows, one after the other.
pub open spec fn rows_text(rows: Seq<Row>) -> Seq<char>
    decreases rows.len(),
{
    if rows.len() == 0 {
        Seq::empty()
    } else {
        row_line(rows[0]) + rows_text(rows.skip(1))
    }
}

/// The rows that an evaluation is stored as: in order, the derivations in
/// stored form.
pub open spec fn stored_rows(evals: Seq<Row>) -> Seq<Row> {
    evals.map_values(|r: Row| stored_row(r)).sort_by(|a: Row, b: Row| row_upto(a, b))
}

/// A row with its derivation in stored form.
pub open spec fn stored_row(r: Row) -> Row {
    (
        r.0,
        match r.1 {
            Some(d) => Some(stripped(d)),
            None => None,
        },
    )
}

fn text_of_rows(rows: &[EvalRow]) -> (r: String)
    ensures
        r@ == rows_text(rows_of(rows@)),
{
    let ghost all = rows_of(rows@);
    let mut r = String::new();
    let mut i: usize = 0;
    assert(all.skip(0) =~= all);
    assert(r@ + rows_text(all) =~= rows_text(all));
    while i < rows.len()
        invariant
            i <= rows@.len(),
            all == rows_of(rows@),
            r@ + rows_text(all.skip(i as int)) == rows_text(all),
        decreases rows@.len() - i,
    {
        let ghost was = r@;
        r.append(rows[i].0.as_str());
        if let Some(d) = &rows[i].1 {
            r.push('\t');
            r.append(d.as_str());
        }
        r.push('\n');
        proof {
            assert(all.skip(i as int)[0] == row_of(rows@[i as int]));
            assert(all.skip(i as int).skip(1) =~= all.skip(i + 1));
            assert(r@ =~= was + row_line(all[i as int]));
            assert(r@ + rows_text(all.skip(i + 1)) =~= was + (row_line(all[i as int]) + rows_text(
                all.skip(i + 1),
            )));
        }
        i = i + 1;
    }
    assert(r@ + rows_text(all.skip(i as int)) =~= r@);
    r
}

/// The text of an evaluation file.
pub fn eval_text(attrs: &[AttrEval]) -> (r: String)
    ensures
        r@ == rows_text(stored_rows(evals_of(attrs@))),
{
    let ghost evals = evals_of(attrs@);
    let ghost stored = evals.map_values(|r: Row| stored_row(r));
    let mut rows: Vec<EvalRow> = Vec::new();
    let mut i: usize = 0;
    while i < attrs.len()
        invariant
            i <= attrs@.len(),
            evals == evals_of(attrs@),
            stored == evals.map_values(|r: Row| stored_row(r)),
            rows_of(rows@) == stored.take(i as int),
        decreases attrs@.len() - i,
    {
        let drv = match &attrs[i].drv_path {
            Some(d) => Some(strip_drv(d.as_str())),
            None => None,
        };
        let row: EvalRow = (attrs[i].attr.clone(), drv);
        let ghost was = rows_of(rows@);
        rows.push(row);
        proof {
            assert(evals[i as int] == attrs@[i as int]@);
            assert(row_of(row) == stored[i as int]);
            assert(rows_of(rows@) =~= was.push(row_of(row)));
            assert(stored.take(i + 1) =~= stored.take(i as int).push(stored[i as int]));
        }
        i = i + 1;
    }
    assert(stored.take(i as int) =~= stored);
    let ghost given = rows@;
    let sorted = ordered::sort(rows);
    proof {
        assert(ordered::keys_of(given) =~= stored);
        assert(ordered::keys_of(sorted@) =~= rows_of(sorted@));
        assert(ordered::order_of::<EvalRow>() =~= (|a: Row, b: Row| row_upto(a, b)));
    }
    text_of_rows(sorted.as_slice())
}

// --- compression -------------------------------------------------------------

/// The frame that `zstd::encode_all` makes of some bytes at a level.
pub uninterp spec fn zstd_frame(bytes: Seq<u8>, level: i32) -> Seq<u8>;

/// The bytes that `zstd::decode_all` gets out of a frame; none, where the frame
/// is damaged or no frame at all.
pub uninterp spec fn zstd_content(frame: Seq<u8>) -> Option<Seq<u8>>;

/// An error of reading or writing.
#[verifier::external_type_specification]
#[verifier::external_body]
pub struct ExIoError(std::io::Error);

/// `zstd::encode_all` on bytes in memory: what it makes of them is a function
/// of the bytes and the level, and decoding it gives the bytes back. Whether it
/// succeeds is left open, since its working memory may be refused.
#[verifier::external_body]
fn compress(bytes: &[u8], level: i32) -> (r: Result<Vec<u8>, std::io::Error>)
    ensures
        r is Ok ==> r->Ok_0@ == zstd_frame(bytes@, level) && zstd_content(r->Ok_0@) == Some(
            bytes@,
        ),
{
    zstd::encode_all(bytes, level)
}

/// `zstd::decode_all` on bytes in memory: what it gets out of them is a
/// function of the bytes, and it gets nothing out of a damaged frame. Whether
/// it succeeds on a sound one is left open, since its working memory may be
/// refused.
#[verifier::external_body]
fn decompress(frame: &[u8]) -> (r: Result<Vec<u8>, std::io::Error>)
    ensures
        r is Ok ==> zstd_content(frame@) == Some(r->Ok_0@),
{
    zstd::decode_all(frame)
}

/// The compressed file of an evaluation, at the library's default level.
pub fn write_eval(attrs: &[AttrEval]) -> (r: Result<Vec<u8>, EvalFileError>)
    ensures
        match r {
            Ok(file) => {
                let bytes = encode_utf8(rows_text(stored_rows(evals_of(attrs@))));
                file@ == zstd_frame(bytes, 0) && zstd_content(file@) == Some(bytes)
            },
            Err(e) => e == EvalFileError::Compress,
        },
{
    let text = eval_text(attrs);
    match compress(text.as_str().as_bytes(), 0) {
        Ok(file) => Ok(file),
        Err(_) => Err(EvalFileError::Compress),
    }
}

/// The text of an evaluation file that was decompressed to `content`.
pub fn text_of_content(content: Vec<u8>) -> (r: Result<String, EvalFileError>)
    ensures
        match r {
            Ok(s) => valid_utf8(content@) && s@ == decode_utf8(content@),
            Err(e) => e == EvalFileError::NotUtf8 && !valid_utf8(content@),
        },
{
    match text::from_utf8(content) {
        Some(s) => {
            proof {
                encode_utf8_decode_utf8(s@);
                encode_utf8_valid_utf8(s@);
            }
            Ok(s)
        },
        None => Err(EvalFileError::NotUtf8),
    }
}

/// The text of an evaluation file.
pub fn read_eval(file: &[u8]) -> (r: Result<String, EvalFileError>)
    ensures
        match r {
            Ok(s) => zstd_content(file@) is Some && valid_utf8(zstd_content(file@)->0) && s@
                == decode_utf8(zstd_content(file@)->0),
            Err(EvalFileError::NotUtf8) => zstd_content(file@) is Some && !valid_utf8(
                zstd_content(file@)->0,
            ),
            Err(e) => e == EvalFileError::Decompress,
        },
{
    match decompress(file) {
        Ok(content) => text_of_content(content),
        Err(_) => Err(EvalFileError::Decompress),
    }
}

// --- parsing -----------------------------------------------------------------

/// The row that a line holds: up to the first tab the attr, behind it the
/// derivation; without a tab, or with nothing behind it, there is none.
pub open spec fn parsed(line: Seq<char>) -> Row {
    let k = text::first_at(line, '\t');
    if k < line.len() && line.skip(k + 1).len() > 0 {
        (line.take(k), Some(line.skip(k + 1)))
    } else {
        (line.take(k), None)
    }
}

/// The row that a line holds.
pub fn parse_line(line: &str) -> (r: EvalRow)
    ensures
        row_of(r) == parsed(line@),
{
    let v = text::chars_of(line);
    proof {
        text::lemma_first_at(line@, '\t');
        assert(v@.skip(0) =~= v@);
    }
    let k = text::find_from(v.as_slice(), '\t', 0);
    let attr = text::string_between(v.as_slice(), 0, k);
    assert(attr@ =~= line@.take(k as int));
    if k < v.len() && k + 1 < v.len() {
        let drv = text::string_between(v.as_slice(), k + 1, v.len());
        assert(drv@ =~= line@.skip(k + 1));
        (attr, Some(drv))
    } else {
        (attr, None)
    }
}

/// Lines as rows.
pub open spec fn parsed_all(lines: Seq<Seq<char>>) -> Seq<Row> {
    lines.map_values(|l: Seq<char>| parsed(l))
}

/// The rows of a text, where a carriage return before a line feed belongs to
/// the line's end.
pub fn parse_eval(text: &str) -> (r: Vec<EvalRow>)
    ensures
        rows_of(r@) == parsed_all(text::lines_of(text@)),
{
    let lines = text::split_lines(text);
    let ghost want = parsed_all(text::lines_of(text@));
    let mut r: Vec<EvalRow> = Vec::new();
    let mut i: usize = 0;
    while i < lines.len()
        invariant
            i <= lines@.len(),
            want == parsed_all(text::texts(lines@)),
            rows_of(r@) == want.take(i as int),
        decreases lines@.len() - i,
    {
        let row = parse_line(lines[i].as_str());
        let ghost was = rows_of(r@);
        r.push(row);
        proof {
            assert(rows_of(r@) =~= was.push(row_of(row)));
            assert(want.take(i + 1) =~= want.take(i as int).push(want[i as int]));
        }
        i = i + 1;
    }
    assert(want.take(i as int) =~= want);
    r
}

/// The lines of a file as they are read one by one: each up to its line feed,
/// the last one up to the end.
pub open spec fn file_lines(s: Seq<char>) -> Seq<Seq<char>>
    decreases s.len(),
{
    let k = text::first_at(s, '\n');
    if s.len() == 0 {
        Seq::empty()
    } else if k == s.len() {
        seq![s]
    } else {
        proof {
            text::lemma_first_at(s, '\n');
        }
        seq![s.take(k)] + file_lines(s.skip(k + 1))
    }
}

/// The rows of an evaluation file's text.
pub open spec fn rows_in(s: Seq<char>) -> Seq<Row> {
    parsed_all(file_lines(s))
}

/// Whether a row comes back from its line: no line feed in it, no tab in the
/// attr, and no empty derivation.
pub open spec fn plain_row(r: Row) -> bool {
    &&& text::lacks(r.0, '\t')
    &&& text::lacks(r.0, '\n')
    &&& r.1 is Some ==> r.1->0.len() > 0 && text::lacks(r.1->0, '\n')
}

/// Reading the text of rows gives the rows back.
pub proof fn law_rows_come_back(rows: Seq<Row>)
    requires
        forall|i: int| 0 <= i < rows.len() ==> plain_row(#[trigger] rows[i]),
    ensures
        rows_in(rows_text(rows)) == rows,
    decreases rows.len(),
{
    let t = rows_text(rows);
    if rows.len() == 0 {
        assert(rows_in(t) =~= rows);
    } else {
        let r = rows[0];
        let line = row_line(r).drop_last();
        assert forall|i: int| 0 <= i < rows.skip(1).len() implies plain_row(
            #[trigger] rows.skip(1)[i],
        ) by {
            assert(rows.skip(1)[i] == rows[i + 1]);
        }
        law_rows_come_back(rows.skip(1));
        assert(plain_row(rows[0]));
        assert(row_line(r).last() == '\n');
        match r.1 {
            Some(d) => {
                assert(line =~= r.0.push('\t') + d);
                assert(line[r.0.len() as int] == '\t');
                text::lemma_first_at_unique(line, '\t', r.0.len() as int);
                assert(line.take(r.0.len() as int) =~= r.0);
                assert(line.skip(r.0.len() as int + 1) =~= d);
            },
            None => {
                assert(line =~= r.0);
                text::lemma_first_at_unique(line, '\t', r.0.len() as int);
                assert(line.take(r.0.len() as int) =~= r.0);
            },
        }
        assert(parsed(line) == r);
        assert(t == row_line(r) + rows_text(rows.skip(1)));
        assert forall|i: int| 0 <= i < line.len() implies t[i] != '\n' by {
            assert(t[i] == line[i]);
        }
        text::lemma_first_at_unique(t, '\n', line.len() as int);
        assert(t.take(line.len() as int) =~= line);
        assert(t.skip(line.len() as int + 1) =~= rows_text(rows.skip(1)));
        assert(file_lines(t) == seq![line] + file_lines(rows_text(rows.skip(1))));
        assert(rows_in(t) =~= seq![r] + rows_in(rows_text(rows.skip(1))));
        assert(seq![r] + rows.skip(1) =~= rows);
    }
}

// --- cursors -----------------------------------------------------------------

/// One side of a merge: the rows that are left, the first of which can be
/// looked at.
pub trait RowCursor {
    /// The rows that are left.
    spec fn rest(&self) -> Seq<Row>;

    /// Whether the cursor is in order.
    spec fn sound(&self) -> bool;

    /// The current row, unless none is left.
    fn row(&self) -> (r: Option<&EvalRow>)
        requires
            self.sound(),
        ensures
            match r {
                Some(x) => self.rest().len() > 0 && row_of(*x) == self.rest()[0],
                None => self.rest().len() == 0,
            },
    ;

    /// Goes on to the next row, if one is left.
    fn advance(&mut self)
        requires
            old(self).sound(),
        ensures
            final(self).sound(),
            old(self).rest().len() > 0 ==> final(self).rest() == old(self).rest().skip(1),
            old(self).rest().len() == 0 ==> final(self).rest() == old(self).rest(),
    ;
}

/// A cursor over rows in memory.
pub struct SliceCursor<'a> {
    rows: &'a [EvalRow],
    i: usize,
}

impl<'a> SliceCursor<'a> {
    /// A cursor at the first of the rows.
    pub fn new(rows: &'a [EvalRow]) -> (r: SliceCursor<'a>)
        ensures
            r.sound(),
            r.rest() == rows_of(rows@),
    {
        let r = SliceCursor { rows, i: 0 };
        assert(r.rest() =~= rows_of(rows@));
        r
    }
}

impl RowCursor for SliceCursor<'_> {
    closed spec fn rest(&self) -> Seq<Row> {
        rows_of(self.rows@).skip(self.i as int)
    }

    closed spec fn sound(&self) -> bool {
        self.i <= self.rows@.len()
    }

    fn row(&self) -> (r: Option<&EvalRow>) {
        if self.i < self.rows.len() {
            Some(&self.rows[self.i])
        } else {
            None
        }
    }

    fn advance(&mut self) {
        if self.i < self.rows.len() {
            self.i = self.i + 1;
            assert(self.rest() =~= old(self).rest().skip(1));
        }
    }
}

/// A cursor over the lines of a text, each parsed as the cursor gets to it.
pub struct LineCursor {
    text: Vec<char>,
    pos: usize,
    cur: Option<EvalRow>,
}

impl LineCursor {
    /// A cursor at the first line of the text.
    pub fn new(text: &str) -> (r: LineCursor)
        ensures
            r.sound(),
            r.rest() == rows_in(text@),
    {
        let mut r = LineCursor { text: text::chars_of(text), pos: 0, cur: None };
        assert(r.text@.skip(0) =~= text@);
        r.read();
        r
    }

    spec fn ahead(&self) -> Seq<Row> {
        rows_in(self.text@.skip(self.pos as int))
    }

    /// Reads the next line, if there is one.
    fn read(&mut self)
        requires
            old(self).pos <= old(self).text@.len(),
        ensures
            final(self).sound(),
            final(self).rest() == old(self).ahead(),
    {
        let ghost s = self.text@.skip(self.pos as int);
        if self.pos == self.text.len() {
            self.cur = None;
            assert(self.rest() =~= rows_in(s));
            return;
        }
        let k = text::find_from(self.text.as_slice(), '\n', self.pos);
        let line = text::string_between(self.text.as_slice(), self.pos, k);
        let row = parse_line(line.as_str());
        let ghost from = self.pos as int;
        proof {
            text::lemma_first_at(s, '\n');
        }
        self.cur = Some(row);
        if k < self.text.len() {
            self.pos = k + 1;
            proof {
                assert(line@ =~= s.take(k - from));
                assert(self.text@.skip(self.pos as int) =~= s.skip(k - from + 1));
                assert(file_lines(s) == seq![line@] + file_lines(s.skip(k - from + 1)));
                assert(rows_in(s) =~= seq![parsed(line@)] + rows_in(s.skip(k - from + 1)));
            }
        } else {
            self.pos = k;
            proof {
                assert(line@ =~= s);
                assert(self.text@.skip(self.pos as int).len() == 0);
                assert(file_lines(s) == seq![line@]);
                assert(rows_in(s) =~= seq![parsed(line@)] + rows_in(
                    self.text@.skip(self.pos as int),
                ));
            }
        }
    }
}

impl RowCursor for LineCursor {
    closed spec fn rest(&self) -> Seq<Row> {
        match self.cur {
            Some(r) => seq![row_of(r)] + self.ahead(),
            None => Seq::empty(),
        }
    }

    closed spec fn sound(&self) -> bool {
        self.pos <= self.text@.len()
    }

    fn row(&self) -> (r: Option<&EvalRow>) {
        match &self.cur {
            Some(r) => Some(r),
            None => None,
        }
    }

    fn advance(&mut self) {
        if self.cur.is_some() {
            let ghost was = self.rest();
            let ghost ahead = self.ahead();
            self.read();
            assert(was.skip(1) =~= ahead);
        }
    }
}

// --- the merge ---------------------------------------------------------------

/// One changed attr between two evaluations. On each side there is a
/// derivation; or none, and the attr threw; or none, and the attr is absent.
#[derive(Debug, Clone, PartialEq, Eq)]
pub struct ChangedAttr {
    pub attr: String,
    pub base_drv: Option<String>,
    pub head_drv: Option<String>,
    pub base_threw: bool,
    pub head_threw: bool,
}

/// A changed attr as plain data.
#[verifier::ext_equal]
pub struct Change {
    pub attr: Seq<char>,
    pub base: Option<Seq<char>>,
    pub head: Option<Seq<char>>,
    pub base_threw: bool,
    pub head_threw: bool,
}

impl ChangedAttr {
    /// The changed attr as plain data.
    pub open spec fn view(self) -> Change {
        Change {
            attr: self.attr@,
            base: text::opt(self.base_drv),
            head: text::opt(self.head_drv),
            base_threw: self.base_threw,
            head_threw: self.head_threw,
        }
    }
}

/// Changed attrs as plain data.
pub open spec fn changes(v: Seq<ChangedAttr>) -> Seq<Change> {
    v.map_values(|c: ChangedAttr| c@)
}

/// What an attr is on one side: `None` where it is absent, else its derivation
/// in stored form, which is missing where the attr threw.
pub type Side = Option<Option<Seq<char>>>;

/// Whether an attr counts as changed: both sides have it, with different
/// derivations; or just one has it, with a derivation.
pub open spec fn differs(base: Side, head: Side) -> bool {
    match (base, head) {
        (Some(b), Some(h)) => b != h,
        (Some(b), None) => b is Some,
        (None, Some(h)) => h is Some,
        (None, None) => false,
    }
}

/// The change of an attr between two sides.
pub open spec fn change_of(attr: Seq<char>, base: Side, head: Side) -> Change {
    Change {
        attr,
        base: match base {
            Some(b) => restored_opt(b),
            None => None,
        },
        head: match head {
            Some(h) => restored_opt(h),
            None => None,
        },
        base_threw: base == Some(None::<Seq<char>>),
        head_threw: head == Some(None::<Seq<char>>),
    }
}

/// The change of an attr, if it is one.
pub open spec fn change_if(attr: Seq<char>, base: Side, head: Side) -> Seq<Change> {
    if differs(base, head) {
        seq![change_of(attr, base, head)]
    } else {
        Seq::empty()
    }
}

/// The changes between two lists of rows in order, found by walking both: the
/// row with the smaller attr stands alone, rows with one attr are compared.
pub open spec fn merged(b: Seq<Row>, h: Seq<Row>) -> Seq<Change>
    decreases b.len() + h.len(),
{
    if b.len() == 0 && h.len() == 0 {
        Seq::empty()
    } else if h.len() == 0 || (b.len() > 0 && text::lex_before(b[0].0, h[0].0)) {
        change_if(b[0].0, Some(b[0].1), None) + merged(b.skip(1), h)
    } else if b.len() == 0 || text::lex_before(h[0].0, b[0].0) {
        change_if(h[0].0, None, Some(h[0].1)) + merged(b, h.skip(1))
    } else {
        change_if(b[0].0, Some(b[0].1), Some(h[0].1)) + merged(b.skip(1), h.skip(1))
    }
}

fn field_of(d: &Option<String>) -> (r: Option<&str>)
    ensures
        text::opt(*d) == (match r {
            Some(f) => Some(f@),
            None => None,
        }),
{
    match d {
        Some(s) => Some(s.as_str()),
        None => None,
    }
}

/// The change of a row that only the base side has: a row that threw there is
/// no change.
pub fn base_only(r: &EvalRow) -> (c: Option<ChangedAttr>)
    ensures
        match c {
            Some(c) => change_if(r.0@, Some(text::opt(r.1)), None) == seq![c@],
            None => change_if(r.0@, Some(text::opt(r.1)), None) == Seq::<Change>::empty(),
        },
{
    if r.1.is_none() {
        return None;
    }
    Some(
        ChangedAttr {
            attr: r.0.clone(),
            base_drv: restore_drv(field_of(&r.1)),
            head_drv: None,
            base_threw: false,
            head_threw: false,
        },
    )
}

/// The change of a row that only the head side has.
pub fn head_only(r: &EvalRow) -> (c: Option<ChangedAttr>)
    ensures
        match c {
            Some(c) => change_if(r.0@, None, Some(text::opt(r.1))) == seq![c@],
            None => change_if(r.0@, None, Some(text::opt(r.1))) == Seq::<Change>::empty(),
        },
{
    if r.1.is_none() {
        return None;
    }
    Some(
        ChangedAttr {
            attr: r.0.clone(),
            base_drv: None,
            head_drv: restore_drv(field_of(&r.1)),
            base_threw: false,
            head_threw: false,
        },
    )
}

fn both_sides(b: &EvalRow, h: &EvalRow) -> (c: Option<ChangedAttr>)
    ensures
        match c {
            Some(c) => change_if(b.0@, Some(text::opt(b.1)), Some(text::opt(h.1))) == seq![c@],
            None => change_if(b.0@, Some(text::opt(b.1)), Some(text::opt(h.1))) == Seq::<
                Change,
            >::empty(),
        },
{
    if text::same_opt(&b.1, &h.1) {
        return None;
    }
    Some(
        ChangedAttr {
            attr: b.0.clone(),
            base_drv: restore_drv(field_of(&b.1)),
            head_drv: restore_drv(field_of(&h.1)),
            base_threw: b.1.is_none(),
            head_threw: h.1.is_none(),
        },
    )
}

/// The changes between two sides whose rows are in order.
pub fn merge_rows<B: RowCursor, H: RowCursor>(b: B, h: H) -> (out: Vec<ChangedAttr>)
    requires
        b.sound(),
        h.sound(),
    ensures
        changes(out@) == merged(b.rest(), h.rest()),
{
    let ghost want = merged(b.rest(), h.rest());
    let mut b = b;
    let mut h = h;
    let mut out: Vec<ChangedAttr> = Vec::new();
    assert(changes(out@) + want =~= want);
    loop
        invariant_except_break
            changes(out@) + merged(b.rest(), h.rest()) == want,
        invariant
            b.sound(),
            h.sound(),
        ensures
            changes(out@) == want,
        decreases b.rest().len() + h.rest().len(),
    {
        let ghost done = changes(out@);
        let ghost rb = b.rest();
        let ghost rh = h.rest();
        let (emit, adv_b, adv_h): (Option<ChangedAttr>, bool, bool) = match (b.row(), h.row()) {
            (None, None) => {
                assert(merged(rb, rh) =~= Seq::<Change>::empty());
                assert(done + merged(rb, rh) =~= done);
                break;
            },
            (Some(br), None) => (base_only(br), true, false),
            (None, Some(hr)) => (head_only(hr), false, true),
            (Some(br), Some(hr)) => {
                proof {
                    text::lemma_lex_order(br.0@, hr.0@, br.0@);
                }
                if text::before(br.0.as_str(), hr.0.as_str()) {
                    (base_only(br), true, false)
                } else if text::before(hr.0.as_str(), br.0.as_str()) {
                    (head_only(hr), false, true)
                } else {
                    (both_sides(br, hr), true, true)
                }
            },
        };
        let ghost step: Seq<Change> = if emit is Some {
            seq![emit->0@]
        } else {
            Seq::empty()
        };
        let ghost later = merged(
            if adv_b {
                rb.skip(1)
            } else {
                rb
            },
            if adv_h {
                rh.skip(1)
            } else {
                rh
            },
        );
        assert(merged(rb, rh) == step + later);
        if let Some(c) = emit {
            out.push(c);
        }
        proof {
            assert(changes(out@) =~= done + step);
            assert(changes(out@) + later =~= done + (step + later));
        }
        if adv_b {
            b.advance();
        }
        if adv_h {
            h.advance();
        }
    }
    out
}

/// The changes between two lists of rows in order.
pub fn diff(b: &[EvalRow], h: &[EvalRow]) -> (out: Vec<ChangedAttr>)
    ensures
        changes(out@) == merged(rows_of(b@), rows_of(h@)),
{
    merge_rows(SliceCursor::new(b), SliceCursor::new(h))
}

/// The changes between the texts of two evaluation files.
pub fn changed_texts(base: &str, head: &str) -> (out: Vec<ChangedAttr>)
    ensures
        changes(out@) == merged(rows_in(base@), rows_in(head@)),
{
    merge_rows(LineCursor::new(base), LineCursor::new(head))
}

/// The changes between two evaluation files.
pub fn changed_set(base: &[u8], head: &[u8]) -> (r: Result<Vec<ChangedAttr>, EvalFileError>)
    ensures
        match r {
            Ok(out) => {
                let b = zstd_content(base@);
                let h = zstd_content(head@);
                &&& b is Some && valid_utf8(b->0)
                &&& h is Some && valid_utf8(h->0)
                &&& changes(out@) == merged(
                    rows_in(decode_utf8(b->0)),
                    rows_in(decode_utf8(h->0)),
                )
            },
            Err(EvalFileError::NotUtf8) => {
                let b = zstd_content(base@);
                let h = zstd_content(head@);
                (b is Some && !valid_utf8(b->0)) || (h is Some && !valid_utf8(h->0))
            },
            Err(e) => e == EvalFileError::Decompress,
        },
{
    let b = match read_eval(base) {
        Ok(b) => b,
        Err(e) => return Err(e),
    };
    let h = match read_eval(head) {
        Ok(h) => h,
        Err(e) => return Err(e),
    };
    Ok(changed_texts(b.as_str(), h.as_str()))
}

// --- what the merge finds ----------------------------------------------------

/// Whether the attrs of rows ascend strictly, so that none occurs twice.
pub open spec fn rows_ascend(rows: Seq<Row>) -> bool {
    forall|i: int, j: int|
        0 <= i < j < rows.len() ==> text::lex_before((#[trigger] rows[i]).0, (#[trigger] rows[j]).0)
}

/// What an attr is among rows.
pub open spec fn side_of(rows: Seq<Row>, attr: Seq<char>) -> Side
    decreases rows.len(),
{
    if rows.len() == 0 {
        None
    } else if rows[0].0 == attr {
        Some(rows[0].1)
    } else {
        side_of(rows.skip(1), attr)
    }
}

/// The first change of an attr, if there is one.
pub open spec fn change_at(found: Seq<Change>, attr: Seq<char>) -> Option<Change>
    decreases found.len(),
{
    if found.len() == 0 {
        None
    } else if found[0].attr == attr {
        Some(found[0])
    } else {
        change_at(found.skip(1), attr)
    }
}

proof fn lemma_ascend_skip(rows: Seq<Row>)
    requires
        rows_ascend(rows),
        rows.len() > 0,
    ensures
        rows_ascend(rows.skip(1)),
        forall|i: int| 0 <= i < rows.skip(1).len() ==> text::lex_before(rows[0].0, (#[trigger] rows.skip(1)[i]).0),
{
    assert forall|i: int, j: int| 0 <= i < j < rows.skip(1).len() implies text::lex_before(
        (#[trigger] rows.skip(1)[i]).0,
        (#[trigger] rows.skip(1)[j]).0,
    ) by {
        assert(rows.skip(1)[i] == rows[i + 1] && rows.skip(1)[j] == rows[j + 1]);
    }
    assert forall|i: int| 0 <= i < rows.skip(1).len() implies text::lex_before(
        rows[0].0,
        (#[trigger] rows.skip(1)[i]).0,
    ) by {
        assert(rows.skip(1)[i] == rows[i + 1]);
    }
}

proof fn lemma_side_absent(rows: Seq<Row>, attr: Seq<char>)
    requires
        forall|i: int| 0 <= i < rows.len() ==> text::lex_before(attr, (#[trigger] rows[i]).0),
    ensures
        side_of(rows, attr) is None,
    decreases rows.len(),
{
    if rows.len() > 0 {
        text::lemma_lex_order(attr, attr, attr);
        assert(text::lex_before(attr, rows[0].0));
        assert forall|i: int| 0 <= i < rows.skip(1).len() implies text::lex_before(
            attr,
            (#[trigger] rows.skip(1)[i]).0,
        ) by {
            assert(rows.skip(1)[i] == rows[i + 1]);
        }
        lemma_side_absent(rows.skip(1), attr);
    }
}

/// Every change that the merge of two lists finds lies behind an attr that
/// lies before all their rows.
proof fn lemma_merged_behind(b: Seq<Row>, h: Seq<Row>, low: Seq<char>)
    requires
        forall|i: int| 0 <= i < b.len() ==> text::lex_before(low, (#[trigger] b[i]).0),
        forall|i: int| 0 <= i < h.len() ==> text::lex_before(low, (#[trigger] h[i]).0),
    ensures
        forall|i: int|
            0 <= i < merged(b, h).len() ==> text::lex_before(low, (#[trigger] merged(b, h)[i]).attr),
    decreases b.len() + h.len(),
{
    if b.len() > 0 {
        assert forall|i: int| 0 <= i < b.skip(1).len() implies text::lex_before(
            low,
            (#[trigger] b.skip(1)[i]).0,
        ) by {
            assert(b.skip(1)[i] == b[i + 1]);
        }
    }
    if h.len() > 0 {
        assert forall|i: int| 0 <= i < h.skip(1).len() implies text::lex_before(
            low,
            (#[trigger] h.skip(1)[i]).0,
        ) by {
            assert(h.skip(1)[i] == h[i + 1]);
        }
    }
    if b.len() == 0 && h.len() == 0 {
    } else if h.len() == 0 || (b.len() > 0 && text::lex_before(b[0].0, h[0].0)) {
        lemma_merged_behind(b.skip(1), h, low);
        lemma_behind_step(
            change_if(b[0].0, Some(b[0].1), None),
            b[0].0,
            merged(b.skip(1), h),
            low,
        );
    } else if b.len() == 0 || text::lex_before(h[0].0, b[0].0) {
        lemma_merged_behind(b, h.skip(1), low);
        lemma_behind_step(
            change_if(h[0].0, None, Some(h[0].1)),
            h[0].0,
            merged(b, h.skip(1)),
            low,
        );
    } else {
        lemma_merged_behind(b.skip(1), h.skip(1), low);
        lemma_behind_step(
            change_if(b[0].0, Some(b[0].1), Some(h[0].1)),
            b[0].0,
            merged(b.skip(1), h.skip(1)),
            low,
        );
    }
}

proof fn lemma_behind_step(head: Seq<Change>, attr: Seq<char>, rest: Seq<Change>, low: Seq<char>)
    requires
        head.len() <= 1,
        head.len() == 1 ==> head[0].attr == attr,
        text::lex_before(low, attr),
        forall|i: int| 0 <= i < rest.len() ==> text::lex_before(low, (#[trigger] rest[i]).attr),
    ensures
        forall|i: int|
            0 <= i < (head + rest).len() ==> text::lex_before(low, (#[trigger] (head + rest)[i]).attr),
{
    assert forall|i: int| 0 <= i < (head + rest).len() implies text::lex_before(
        low,
        (#[trigger] (head + rest)[i]).attr,
    ) by {
        if i >= head.len() {
            assert((head + rest)[i] == rest[i - head.len()]);
        }
    }
}

proof fn lemma_change_absent(found: Seq<Change>, attr: Seq<char>)
    requires
        forall|i: int| 0 <= i < found.len() ==> text::lex_before(attr, (#[trigger] found[i]).attr),
    ensures
        change_at(found, attr) is None,
    decreases found.len(),
{
    if found.len() > 0 {
        text::lemma_lex_order(attr, attr, attr);
        assert(text::lex_before(attr, found[0].attr));
        assert forall|i: int| 0 <= i < found.skip(1).len() implies text::lex_before(
            attr,
            (#[trigger] found.skip(1)[i]).attr,
        ) by {
            assert(found.skip(1)[i] == found[i + 1]);
        }
        lemma_change_absent(found.skip(1), attr);
    }
}

/// What the changes of the first attr, and those behind it, say of an attr.
proof fn lemma_change_step(
    base: Side,
    head: Side,
    first: Seq<char>,
    rest: Seq<Change>,
    attr: Seq<char>,
)
    requires
        forall|i: int| 0 <= i < rest.len() ==> text::lex_before(first, (#[trigger] rest[i]).attr),
    ensures
        change_at(change_if(first, base, head) + rest, attr) == (if attr == first {
            if differs(base, head) {
                Some(change_of(first, base, head))
            } else {
                None
            }
        } else {
            change_at(rest, attr)
        }),
{
    let all = change_if(first, base, head) + rest;
    if differs(base, head) {
        assert(all[0] == change_of(first, base, head));
        assert(all.skip(1) =~= rest);
    } else {
        assert(all =~= rest);
    }
    if attr == first {
        lemma_change_absent(rest, first);
    }
}

/// Of two lists of rows in strictly ascending order of their attrs, the merge
/// finds exactly the attrs that differ, each with what it is on either side.
pub proof fn law_merge_finds_exactly_the_changes(b: Seq<Row>, h: Seq<Row>, attr: Seq<char>)
    requires
        rows_ascend(b),
        rows_ascend(h),
    ensures
        change_at(merged(b, h), attr) == (if differs(side_of(b, attr), side_of(h, attr)) {
            Some(change_of(attr, side_of(b, attr), side_of(h, attr)))
        } else {
            None
        }),
    decreases b.len() + h.len(),
{
    if b.len() > 0 {
        lemma_ascend_skip(b);
    }
    if h.len() > 0 {
        lemma_ascend_skip(h);
    }
    if b.len() == 0 && h.len() == 0 {
    } else if h.len() == 0 || (b.len() > 0 && text::lex_before(b[0].0, h[0].0)) {
        let first = b[0].0;
        law_merge_finds_exactly_the_changes(b.skip(1), h, attr);
        assert forall|i: int| 0 <= i < h.len() implies text::lex_before(first, (#[trigger] h[i]).0) by {
            text::lemma_lex_order(first, h[0].0, h[i].0);
        }
        lemma_merged_behind(b.skip(1), h, first);
        lemma_change_step(Some(b[0].1), None, first, merged(b.skip(1), h), attr);
        lemma_side_absent(b.skip(1), first);
        lemma_side_absent(h, first);
    } else if b.len() == 0 || text::lex_before(h[0].0, b[0].0) {
        let first = h[0].0;
        law_merge_finds_exactly_the_changes(b, h.skip(1), attr);
        assert forall|i: int| 0 <= i < b.len() implies text::lex_before(first, (#[trigger] b[i]).0) by {
            text::lemma_lex_order(first, b[0].0, b[i].0);
        }
        lemma_merged_behind(b, h.skip(1), first);
        lemma_change_step(None, Some(h[0].1), first, merged(b, h.skip(1)), attr);
        lemma_side_absent(b, first);
        lemma_side_absent(h.skip(1), first);
    } else {
        let first = b[0].0;
        text::lemma_lex_order(b[0].0, h[0].0, b[0].0);
        law_merge_finds_exactly_the_changes(b.skip(1), h.skip(1), attr);
        lemma_merged_behind(b.skip(1), h.skip(1), first);
        lemma_change_step(
            Some(b[0].1),
            Some(h[0].1),
            first,
            merged(b.skip(1), h.skip(1)),
            attr,
        );
        lemma_side_absent(b.skip(1), first);
        lemma_side_absent(h.skip(1), first);
    }
}

/// Whether the attrs of changes ascend strictly.
pub open spec fn changes_ascend(found: Seq<Change>) -> bool {
    forall|i: int, j: int|
        0 <= i < j < found.len() ==> text::lex_before(
            (#[trigger] found[i]).attr,
            (#[trigger] found[j]).attr,
        )
}

proof fn lemma_changes_step(base: Side, head: Side, first: Seq<char>, rest: Seq<Change>)
    requires
        changes_ascend(rest),
        forall|i: int| 0 <= i < rest.len() ==> text::lex_before(first, (#[trigger] rest[i]).attr),
    ensures
        changes_ascend(change_if(first, base, head) + rest),
{
    let head_part = change_if(first, base, head);
    let all = head_part + rest;
    assert forall|i: int, j: int| 0 <= i < j < all.len() implies text::lex_before(
        (#[trigger] all[i]).attr,
        (#[trigger] all[j]).attr,
    ) by {
        assert(all[j] == rest[j - head_part.len()]);
        if i >= head_part.len() {
            assert(all[i] == rest[i - head_part.len()]);
        }
    }
}

/// The changes come in strictly ascending order of their attrs: no attr is
/// reported twice.
pub proof fn law_changes_are_in_order(b: Seq<Row>, h: Seq<Row>)
    requires
        rows_ascend(b),
        rows_ascend(h),
    ensures
        changes_ascend(merged(b, h)),
    decreases b.len() + h.len(),
{
    if b.len() > 0 {
        lemma_ascend_skip(b);
    }
    if h.len() > 0 {
        lemma_ascend_skip(h);
    }
    if b.len() == 0 && h.len() == 0 {
    } else if h.len() == 0 || (b.len() > 0 && text::lex_before(b[0].0, h[0].0)) {
        let first = b[0].0;
        law_changes_are_in_order(b.skip(1), h);
        assert forall|i: int| 0 <= i < h.len() implies text::lex_before(first, (#[trigger] h[i]).0) by {
            text::lemma_lex_order(first, h[0].0, h[i].0);
        }
        lemma_merged_behind(b.skip(1), h, first);
        lemma_changes_step(Some(b[0].1), None, first, merged(b.skip(1), h));
    } else if b.len() == 0 || text::lex_before(h[0].0, b[0].0) {
        let first = h[0].0;
        law_changes_are_in_order(b, h.skip(1));
        assert forall|i: int| 0 <= i < b.len() implies text::lex_before(first, (#[trigger] b[i]).0) by {
            text::lemma_lex_order(first, b[0].0, b[i].0);
        }
        lemma_merged_behind(b, h.skip(1), first);
        lemma_changes_step(None, Some(h[0].1), first, merged(b, h.skip(1)));
    } else {
        let first = b[0].0;
        text::lemma_lex_order(b[0].0, h[0].0, b[0].0);
        law_changes_are_in_order(b.skip(1), h.skip(1));
        lemma_merged_behind(b.skip(1), h.skip(1), first);
        lemma_changes_step(
            Some(b[0].1),
            Some(h[0].1),
            first,
            merged(b.skip(1), h.skip(1)),
        );
    }
}

/// An evaluation does not differ from itself.
pub proof fn law_no_change_from_itself(rows: Seq<Row>)
    ensures
        merged(rows, rows) == Seq::<Change>::empty(),
    decreases rows.len(),
{
    if rows.len() > 0 {
        text::lemma_lex_order(rows[0].0, rows[0].0, rows[0].0);
        law_no_change_from_itself(rows.skip(1));
        assert(merged(rows, rows) =~= Seq::<Change>::empty());
    }
}

/// A change seen from the other side.
pub open spec fn mirrored(c: Change) -> Change {
    Change {
        attr: c.attr,
        base: c.head,
        head: c.base,
        base_threw: c.head_threw,
        head_threw: c.base_threw,
    }
}

/// Exchanging the two sides exchanges them in every change, and changes
/// nothing else.
pub proof fn law_merge_is_symmetric(b: Seq<Row>, h: Seq<Row>)
    ensures
        merged(h, b) == merged(b, h).map_values(|c: Change| mirrored(c)),
    decreases b.len() + h.len(),
{
    let m = |c: Change| mirrored(c);
    if b.len() == 0 && h.len() == 0 {
        assert(merged(h, b) =~= merged(b, h).map_values(m));
    } else if h.len() == 0 || (b.len() > 0 && text::lex_before(b[0].0, h[0].0)) {
        if h.len() > 0 {
            text::lemma_lex_order(b[0].0, h[0].0, b[0].0);
        }
        law_merge_is_symmetric(b.skip(1), h);
        let step = change_if(b[0].0, Some(b[0].1), None);
        assert(change_if(b[0].0, None, Some(b[0].1)) =~= step.map_values(m));
        assert((step + merged(b.skip(1), h)).map_values(m) =~= step.map_values(m) + merged(
            b.skip(1),
            h,
        ).map_values(m));
    } else if b.len() == 0 || text::lex_before(h[0].0, b[0].0) {
        if b.len() > 0 {
            text::lemma_lex_order(b[0].0, h[0].0, b[0].0);
        }
        law_merge_is_symmetric(b, h.skip(1));
        let step = change_if(h[0].0, None, Some(h[0].1));
        assert(change_if(h[0].0, Some(h[0].1), None) =~= step.map_values(m));
        assert((step + merged(b, h.skip(1))).map_values(m) =~= step.map_values(m) + merged(
            b,
            h.skip(1),
        ).map_values(m));
    } else {
        text::lemma_lex_order(b[0].0, h[0].0, b[0].0);
        law_merge_is_symmetric(b.skip(1), h.skip(1));
        let step = change_if(b[0].0, Some(b[0].1), Some(h[0].1));
        assert(change_if(h[0].0, Some(h[0].1), Some(b[0].1)) =~= step.map_values(m));
        assert((step + merged(b.skip(1), h.skip(1))).map_values(m) =~= step.map_values(m) + merged(
            b.skip(1),
            h.skip(1),
        ).map_values(m));
    }
}

// --- from evaluations to changes ---------------------------------------------

/// Whether an evaluation can be stored: no attr occurs twice or holds a tab or
/// a line feed, and every derivation is a path of the store's shape with
/// something between prefix and suffix, and no line feed in it.
pub open spec fn storable(evals: Seq<Row>) -> bool {
    &&& forall|i: int, j: int|
        0 <= i < j < evals.len() ==> (#[trigger] evals[i]).0 != (#[trigger] evals[j]).0
    &&& forall|i: int|
        0 <= i < evals.len() ==> {
            let r = #[trigger] evals[i];
            &&& text::lacks(r.0, '\t')
            &&& text::lacks(r.0, '\n')
            &&& r.1 is Some ==> store_drv(r.1->0) && stripped(r.1->0).len() > 0 && text::lacks(
                r.1->0,
                '\n',
            )
        }
}

proof fn lemma_side_is_the_row(rows: Seq<Row>, attr: Seq<char>)
    requires
        forall|i: int, j: int|
            0 <= i < j < rows.len() ==> (#[trigger] rows[i]).0 != (#[trigger] rows[j]).0,
    ensures
        forall|d: Option<Seq<char>>| side_of(rows, attr) == Some(d) <==> rows.contains((attr, d)),
    decreases rows.len(),
{
    if rows.len() > 0 {
        let rest = rows.skip(1);
        assert forall|i: int, j: int| 0 <= i < j < rest.len() implies (#[trigger] rest[i]).0
            != (#[trigger] rest[j]).0 by {
            assert(rest[i] == rows[i + 1] && rest[j] == rows[j + 1]);
        }
        lemma_side_is_the_row(rest, attr);
        assert forall|d: Option<Seq<char>>| side_of(rows, attr) == Some(d) <==> rows.contains(
            (attr, d),
        ) by {
            if rows.contains((attr, d)) {
                let k = choose|k: int| 0 <= k < rows.len() && rows[k] == (attr, d);
                if k > 0 {
                    assert(rest[k - 1] == (attr, d));
                    assert(rest.contains((attr, d)));
                    assert(rows[0].0 != rows[k].0);
                }
            }
            if rows[0].0 == attr {
                assert(rows[0] == (attr, rows[0].1));
            } else if rest.contains((attr, d)) {
                let k = choose|k: int| 0 <= k < rest.len() && rest[k] == (attr, d);
                assert(rows[k + 1] == (attr, d));
            }
        }
    }
}

/// The rows of a stored evaluation ascend, come back from their text, and say
/// of each attr what the evaluation says.
proof fn lemma_stored_rows(evals: Seq<Row>)
    requires
        storable(evals),
    ensures
        rows_ascend(stored_rows(evals)),
        forall|i: int| 0 <= i < stored_rows(evals).len() ==> plain_row(#[trigger] stored_rows(evals)[i]),
        forall|attr: Seq<char>|
            #![trigger side_of(stored_rows(evals), attr)]
            side_of(stored_rows(evals), attr) == (match side_of(evals, attr) {
                Some(Some(d)) => Some(Some(stripped(d))),
                Some(None) => Some(None),
                None => None,
            }),
        forall|attr: Seq<char>|
            #![trigger side_of(evals, attr)]
            side_of(evals, attr) matches Some(Some(d)) ==> store_drv(d),
{
    broadcast use vstd::seq_lib::group_to_multiset_ensures;

    let stored = evals.map_values(|r: Row| stored_row(r));
    let rel = |a: Row, b: Row| row_upto(a, b);
    let sorted = stored_rows(evals);
    EvalRow::order_is_total();
    assert(rel =~= (|a: Row, b: Row| EvalRow::upto(a, b)));
    stored.lemma_sort_by_ensures(rel);
    assert forall|i: int, j: int| 0 <= i < j < stored.len() implies (#[trigger] stored[i]).0
        != (#[trigger] stored[j]).0 by {
        assert(evals[i].0 != evals[j].0);
    }
    assert(stored.no_duplicates());
    stored.lemma_multiset_has_no_duplicates();
    assert forall|x: Row| sorted.to_multiset().contains(x) implies sorted.to_multiset().count(x)
        == 1 by {
        assert(stored.to_multiset().contains(x));
    }
    sorted.lemma_multiset_has_no_duplicates_conv();
    assert forall|x: Row| sorted.contains(x) == stored.contains(x) by {
        assert(sorted.to_multiset().count(x) == stored.to_multiset().count(x));
    }
    assert forall|i: int, j: int| 0 <= i < j < sorted.len() implies text::lex_before(
        (#[trigger] sorted[i]).0,
        (#[trigger] sorted[j]).0,
    ) by {
        assert(rel(sorted[i], sorted[j]));
        if sorted[i].0 == sorted[j].0 {
            assert(sorted.contains(sorted[i]) && sorted.contains(sorted[j]));
            let k = choose|k: int| 0 <= k < stored.len() && stored[k] == sorted[i];
            let m = choose|m: int| 0 <= m < stored.len() && stored[m] == sorted[j];
            if k < m {
                assert(stored[k].0 != stored[m].0);
            } else if m < k {
                assert(stored[m].0 != stored[k].0);
            }
            assert(sorted[i] == sorted[j]);
        }
    }
    assert forall|i: int| 0 <= i < sorted.len() implies plain_row(#[trigger] sorted[i]) by {
        assert(sorted.contains(sorted[i]));
        let k = choose|k: int| 0 <= k < stored.len() && stored[k] == sorted[i];
        let r = evals[k];
        if r.1 is Some {
            let d = r.1->0;
            assert(stripped(d) =~= d.subrange(
                "/nix/store/"@.len() as int,
                d.len() - ".drv"@.len(),
            ));
            assert forall|m: int| 0 <= m < stripped(d).len() implies stripped(d)[m] != '\n' by {
                assert(stripped(d)[m] == d["/nix/store/"@.len() + m]);
            }
        }
    }
    assert forall|i: int, j: int| 0 <= i < j < sorted.len() implies (#[trigger] sorted[i]).0
        != (#[trigger] sorted[j]).0 by {
        text::lemma_lex_order(sorted[i].0, sorted[j].0, sorted[i].0);
    }
    assert forall|attr: Seq<char>|
        #![trigger side_of(sorted, attr)]
        side_of(sorted, attr) == (match side_of(evals, attr) {
            Some(Some(d)) => Some(Some(stripped(d))),
            Some(None) => Some(None),
            None => None,
        }) by {
        lemma_side_is_the_row(sorted, attr);
        lemma_side_is_the_row(evals, attr);
        match side_of(evals, attr) {
            Some(d) => {
                assert(evals.contains((attr, d)));
                let k = choose|k: int| 0 <= k < evals.len() && evals[k] == (attr, d);
                let sd = stored_row((attr, d)).1;
                assert(stored[k] == (attr, sd));
                assert(stored.contains((attr, sd)));
                assert(sorted.contains((attr, sd)));
                assert(side_of(sorted, attr) == Some(sd));
            },
            None => {
                if side_of(sorted, attr) is Some {
                    let sd = side_of(sorted, attr)->0;
                    assert(sorted.contains((attr, sd)));
                    let k = choose|k: int| 0 <= k < stored.len() && stored[k] == (attr, sd);
                    assert(evals[k] == (attr, evals[k].1));
                    assert(evals.contains((attr, evals[k].1)));
                    assert(side_of(evals, attr) == Some(evals[k].1));
                }
            },
        }
    }
    assert forall|attr: Seq<char>|
        #![trigger side_of(evals, attr)]
        side_of(evals, attr) matches Some(Some(d)) ==> store_drv(d) by {
        lemma_side_is_the_row(evals, attr);
        if let Some(Some(d)) = side_of(evals, attr) {
            assert(evals.contains((attr, Some(d))));
        }
    }
}

/// The change of an attr between two evaluations, with the derivations as they
/// were evaluated.
pub open spec fn evaluated_change(attr: Seq<char>, base: Side, head: Side) -> Change {
    Change {
        attr,
        base: match base {
            Some(b) => b,
            None => None,
        },
        head: match head {
            Some(h) => h,
            None => None,
        },
        base_threw: base == Some(None::<Seq<char>>),
        head_threw: head == Some(None::<Seq<char>>),
    }
}

/// Comparing the files of two evaluations reports exactly the attrs that
/// differ between the evaluations, in ascending order, each with the
/// derivations that were evaluated.
pub proof fn law_files_compare_as_evaluations(
    base: Seq<Row>,
    head: Seq<Row>,
    base_file: Seq<u8>,
    head_file: Seq<u8>,
    attr: Seq<char>,
)
    requires
        storable(base),
        storable(head),
        zstd_content(base_file) == Some(encode_utf8(rows_text(stored_rows(base)))),
        zstd_content(head_file) == Some(encode_utf8(rows_text(stored_rows(head)))),
    ensures
        ({
            let found = merged(
                rows_in(decode_utf8(zstd_content(base_file)->0)),
                rows_in(decode_utf8(zstd_content(head_file)->0)),
            );
            let b = side_of(base, attr);
            let h = side_of(head, attr);
            &&& changes_ascend(found)
            &&& change_at(found, attr) == (if differs(b, h) {
                Some(evaluated_change(attr, b, h))
            } else {
                None
            })
        }),
{
    encode_utf8_decode_utf8(rows_text(stored_rows(base)));
    encode_utf8_decode_utf8(rows_text(stored_rows(head)));
    lemma_stored_rows(base);
    lemma_stored_rows(head);
    law_rows_come_back(stored_rows(base));
    law_rows_come_back(stored_rows(head));
    law_changes_are_in_order(stored_rows(base), stored_rows(head));
    law_merge_finds_exactly_the_changes(stored_rows(base), stored_rows(head), attr);
    let sb = side_of(stored_rows(base), attr);
    let sh = side_of(stored_rows(head), attr);
    if let Some(Some(d)) = side_of(base, attr) {
        law_strip_then_restore(d);
    }
    if let Some(Some(d)) = side_of(head, attr) {
        law_strip_then_restore(d);
    }
}

// --- tests -------------------------------------------------------------------

/// The rows of a map from test attrs to derivations, in order.
pub open spec fn test_rows(m: StringMap<String>) -> Seq<Row> {
    Seq::new(m.keys().len(), |i: int| (m.keys()[i], Some(stripped(m.values()[i]@))))
}

fn rows_of_map(m: &StringMap<String>) -> (r: Vec<EvalRow>)
    requires
        m.wf(),
    ensures
        rows_of(r@) == test_rows(*m),
{
    let ghost want = test_rows(*m);
    let mut r: Vec<EvalRow> = Vec::new();
    let mut i: usize = 0;
    proof {
        m.lemma_entries();
    }
    while i < m.len()
        invariant
            m.wf(),
            want == test_rows(*m),
            i <= want.len(),
            want.len() == m.keys().len(),
            rows_of(r@) == want.take(i as int),
        decreases want.len() - i,
    {
        let row: EvalRow = (m.key_at(i).clone(), Some(strip_drv(m.value_at(i).as_str())));
        let ghost was = rows_of(r@);
        r.push(row);
        proof {
            assert(row_of(row) == want[i as int]);
            assert(rows_of(r@) =~= was.push(row_of(row)));
            assert(want.take(i + 1) =~= want.take(i as int).push(want[i as int]));
        }
        i = i + 1;
    }
    assert(want.take(i as int) =~= want);
    r
}

/// The changes between two maps from test attrs to derivations, found as
/// between two evaluations.
pub fn changed_tests(base: &StringMap<String>, head: &StringMap<String>) -> (out: Vec<ChangedAttr>)
    requires
        base.wf(),
        head.wf(),
    ensures
        changes(out@) == merged(test_rows(*base), test_rows(*head)),
{
    let b = rows_of_map(base);
    let h = rows_of_map(head);
    diff(b.as_slice(), h.as_slice())
}

/// The rows of such a map ascend and say of a test what the map says, so the
/// changes found are exactly the tests that the maps disagree on.
pub proof fn law_changed_tests_are_the_disagreements(
    base: StringMap<String>,
    head: StringMap<String>,
    attr: Seq<char>,
)
    requires
        base.wf(),
        head.wf(),
    ensures
        ({
            let b = test_side(base@, attr);
            let h = test_side(head@, attr);
            change_at(merged(test_rows(base), test_rows(head)), attr) == (if b != h {
                Some(change_of(attr, b, h))
            } else {
                None
            })
        }),
{
    lemma_test_rows(base, attr);
    lemma_test_rows(head, attr);
    law_merge_finds_exactly_the_changes(test_rows(base), test_rows(head), attr);
}

/// What a test is on the side of a map.
pub open spec fn test_side(m: Map<Seq<char>, String>, attr: Seq<char>) -> Side {
    if m.contains_key(attr) {
        Some(Some(stripped(m[attr]@)))
    } else {
        None
    }
}

proof fn lemma_test_rows(m: StringMap<String>, attr: Seq<char>)
    requires
        m.wf(),
    ensures
        rows_ascend(test_rows(m)),
        side_of(test_rows(m), attr) == test_side(m@, attr),
{
    m.lemma_entries();
    let rows = test_rows(m);
    assert forall|i: int, j: int| 0 <= i < j < rows.len() implies text::lex_before(
        (#[trigger] rows[i]).0,
        (#[trigger] rows[j]).0,
    ) by {
        assert(rows[i].0 == m.keys()[i] && rows[j].0 == m.keys()[j]);
    }
    assert forall|i: int, j: int| 0 <= i < j < rows.len() implies (#[trigger] rows[i]).0
        != (#[trigger] rows[j]).0 by {
        text::lemma_lex_order(rows[i].0, rows[j].0, rows[i].0);
    }
    lemma_side_is_the_row(rows, attr);
    if m@.contains_key(attr) {
        assert(m.keys().contains(attr));
        let k = choose|k: int| 0 <= k < m.keys().len() && m.keys()[k] == attr;
        assert(rows[k] == (attr, Some(stripped(m@[attr]@))));
        assert(rows.contains((attr, Some(stripped(m@[attr]@)))));
    } else if side_of(rows, attr) is Some {
        let d = side_of(rows, attr)->0;
        assert(rows.contains((attr, d)));
        let k = choose|k: int| 0 <= k < rows.len() && rows[k] == (attr, d);
        assert(m@.contains_key(m.keys()[k]));
    }
}

// --- what the files promise --------------------------------------------------

/// A derivation of the store is kept without what every one of them begins and ends
/// with; any other path is kept as it is.
pub proof fn law_stored_forms_leave_out_the_common_parts(drv: Seq<char>, field: Seq<char>)
    ensures
        stripped("/nix/store/"@ + field + ".drv"@) == field,
        restored(field) == "/nix/store/"@ + field + ".drv"@,
        !text::begins(drv, "/nix/store/"@) || !text::ends(drv, ".drv"@) ==> stripped(drv) == drv,
{
    law_restore_then_strip(field);
    reveal_strlit("/nix/store/");
    reveal_strlit(".drv");
    if store_drv(drv) {
        let rest = drv.skip("/nix/store/"@.len() as int);
        let n = ".drv"@.len();
        assert(drv.skip(drv.len() - n) =~= rest.skip(rest.len() - n));
    }
}

/// A line is its attr up to the first tab and its derivation behind it; without a
/// tab, or with nothing behind it, there is no derivation.
pub proof fn law_lines_hold_attr_and_derivation(attr: Seq<char>, d: Seq<char>)
    requires
        text::lacks(attr, '\t'),
    ensures
        parsed(attr) == (attr, None::<Seq<char>>),
        parsed(attr + seq!['\t']) == (attr, None::<Seq<char>>),
        d.len() > 0 ==> parsed(attr + seq!['\t'] + d) == (attr, Some(d)),
        row_line((attr, Some(d))) == attr + seq!['\t'] + d + seq!['\n'],
        row_line((attr, None)) == attr + seq!['\n'],
{
    let n = attr.len() as int;
    text::lemma_first_at(attr, '\t');
    assert(attr.take(n) =~= attr);
    let one = attr + seq!['\t'];
    assert(one[n] == '\t');
    assert forall|i: int| 0 <= i < n implies one[i] != '\t' by {
        assert(one[i] == attr[i]);
    }
    text::lemma_first_at_unique(one, '\t', n);
    assert(one.take(n) =~= attr);
    let two = attr + seq!['\t'] + d;
    assert(two[n] == '\t');
    assert forall|i: int| 0 <= i < n implies two[i] != '\t' by {
        assert(two[i] == attr[i]);
    }
    text::lemma_first_at_unique(two, '\t', n);
    assert(two.take(n) =~= attr);
    assert(two.skip(n + 1) =~= d);
    assert(row_line((attr, Some(d))) =~= attr + seq!['\t'] + d + seq!['\n']);
    assert(row_line((attr, None)) =~= attr + seq!['\n']);
}

proof fn lemma_change_at(found: Seq<Change>, attr: Seq<char>)
    ensures
        match change_at(found, attr) {
            Some(c) => found.contains(c) && c.attr == attr,
            None => forall|i: int| 0 <= i < found.len() ==> (#[trigger] found[i]).attr != attr,
        },
    decreases found.len(),
{
    if found.len() > 0 && found[0].attr != attr {
        lemma_change_at(found.skip(1), attr);
        let rest = found.skip(1);
        match change_at(rest, attr) {
            Some(c) => {
                let k = choose|k: int| 0 <= k < rest.len() && rest[k] == c;
                assert(found[k + 1] == c);
            },
            None => {
                assert forall|i: int| 0 <= i < found.len() implies (#[trigger] found[i]).attr
                    != attr by {
                    if i > 0 {
                        assert(rest[i - 1] == found[i]);
                    }
                }
            },
        }
    } else if found.len() > 0 {
        assert(found.contains(found[0]));
    }
}

proof fn lemma_side_of_row(rows: Seq<Row>, attr: Seq<char>, d: Option<Seq<char>>)
    requires
        rows_ascend(rows),
    ensures
        rows.contains((attr, d)) ==> side_of(rows, attr) == Some(d),
        (forall|i: int| 0 <= i < rows.len() ==> (#[trigger] rows[i]).0 != attr) ==> side_of(
            rows,
            attr,
        ) is None,
    decreases rows.len(),
{
    if rows.len() > 0 {
        lemma_ascend_skip(rows);
        lemma_side_of_row(rows.skip(1), attr, d);
        if rows.contains((attr, d)) {
            let k = choose|k: int| 0 <= k < rows.len() && rows[k] == (attr, d);
            if k > 0 {
                assert(rows.skip(1)[k - 1] == (attr, d));
                assert(text::lex_before(rows[0].0, rows.skip(1)[k - 1].0));
                text::lemma_lex_order(attr, attr, attr);
                assert(rows[0].0 != attr);
            }
        }
        if forall|i: int| 0 <= i < rows.len() ==> (#[trigger] rows[i]).0 != attr {
            assert forall|i: int| 0 <= i < rows.skip(1).len() implies (#[trigger] rows.skip(1)[i]).0
                != attr by {
                assert(rows.skip(1)[i] == rows[i + 1]);
            }
            assert(rows[0].0 != attr);
        }
    }
}

/// Whether no row is of the attr.
pub open spec fn no_row(rows: Seq<Row>, attr: Seq<char>) -> bool {
    forall|i: int| 0 <= i < rows.len() ==> (#[trigger] rows[i]).0 != attr
}

/// Whether no change is of the attr.
pub open spec fn no_change(found: Seq<Change>, attr: Seq<char>) -> bool {
    forall|i: int| 0 <= i < found.len() ==> (#[trigger] found[i]).attr != attr
}

/// An attr with a derivation on both sides is changed exactly where the two differ;
/// one with a derivation on a single side always is, whether the other side lacks it
/// or it threw there. The change holds both derivations as paths.
pub proof fn law_attrs_with_derivations_are_compared(
    b: Seq<Row>,
    h: Seq<Row>,
    attr: Seq<char>,
    x: Seq<char>,
    y: Seq<char>,
)
    requires
        rows_ascend(b),
        rows_ascend(h),
    ensures
        b.contains((attr, Some(x))) && h.contains((attr, Some(y))) && x != y ==> merged(
            b,
            h,
        ).contains(
            Change {
                attr,
                base: Some("/nix/store/"@ + x + ".drv"@),
                head: Some("/nix/store/"@ + y + ".drv"@),
                base_threw: false,
                head_threw: false,
            },
        ),
        b.contains((attr, Some(x))) && h.contains((attr, Some(x))) ==> no_change(
            merged(b, h),
            attr,
        ),
        b.contains((attr, Some(x))) && no_row(h, attr) ==> merged(b, h).contains(
            Change {
                attr,
                base: Some("/nix/store/"@ + x + ".drv"@),
                head: None,
                base_threw: false,
                head_threw: false,
            },
        ),
        no_row(b, attr) && h.contains((attr, Some(y))) ==> merged(b, h).contains(
            Change {
                attr,
                base: None,
                head: Some("/nix/store/"@ + y + ".drv"@),
                base_threw: false,
                head_threw: false,
            },
        ),
        b.contains((attr, Some(x))) && h.contains((attr, None)) ==> merged(b, h).contains(
            Change {
                attr,
                base: Some("/nix/store/"@ + x + ".drv"@),
                head: None,
                base_threw: false,
                head_threw: true,
            },
        ),
        b.contains((attr, None)) && h.contains((attr, Some(y))) ==> merged(b, h).contains(
            Change {
                attr,
                base: None,
                head: Some("/nix/store/"@ + y + ".drv"@),
                base_threw: true,
                head_threw: false,
            },
        ),
{
    law_merge_finds_exactly_the_changes(b, h, attr);
    lemma_change_at(merged(b, h), attr);
    lemma_side_of_row(b, attr, Some(x));
    lemma_side_of_row(b, attr, None);
    lemma_side_of_row(h, attr, Some(y));
    lemma_side_of_row(h, attr, Some(x));
    lemma_side_of_row(h, attr, None);
}

/// An attr without a derivation on either side is no change, be it absent or have it
/// thrown.
pub proof fn law_attrs_without_derivations_do_not_change(
    b: Seq<Row>,
    h: Seq<Row>,
    attr: Seq<char>,
)
    requires
        rows_ascend(b),
        rows_ascend(h),
        b.contains((attr, None)) || no_row(b, attr),
        h.contains((attr, None)) || no_row(h, attr),
    ensures
        no_change(merged(b, h), attr),
{
    law_merge_finds_exactly_the_changes(b, h, attr);
    lemma_change_at(merged(b, h), attr);
    lemma_side_of_row(b, attr, None);
    lemma_side_of_row(h, attr, None);
}

/// An evaluation is stored with a row for each of its attrs, in ascending order of
/// the attrs, each with its derivation in stored form.
pub proof fn law_evaluations_are_stored_in_order(evals: Seq<Row>, i: int, j: int)
    requires
        storable(evals),
    ensures
        stored_rows(evals).len() == evals.len(),
        0 <= i < j < evals.len() ==> text::lex_before(
            stored_rows(evals)[i].0,
            stored_rows(evals)[j].0,
        ),
        0 <= i < evals.len() ==> stored_rows(evals).contains(
            (
                evals[i].0,
                match evals[i].1 {
                    Some(d) => Some(stripped(d)),
                    None => None,
                },
            ),
        ),
{
    broadcast use vstd::seq_lib::group_to_multiset_ensures;

    lemma_stored_rows(evals);
    let rel = |a: Row, b: Row| row_upto(a, b);
    EvalRow::order_is_total();
    assert(rel =~= (|a: Row, b: Row| EvalRow::upto(a, b)));
    let raw = evals.map_values(|r: Row| stored_row(r));
    raw.lemma_sort_by_ensures(rel);
    assert(stored_rows(evals).to_multiset().len() == stored_rows(evals).len());
    assert(raw.to_multiset().len() == raw.len());
    if 0 <= i < evals.len() {
        assert(raw[i] == stored_row(evals[i]));
        assert(raw.contains(raw[i]));
        assert(raw.to_multiset().count(raw[i]) > 0);
        assert(stored_rows(evals).contains(raw[i]));
    }
}

/// A test is changed exactly where the two sides do not have the same derivation for
/// it, and none threw.
pub proof fn law_tests_are_compared_by_their_derivations(
    base: StringMap<String>,
    head: StringMap<String>,
    test: Seq<char>,
)
    requires
        base.wf(),
        head.wf(),
        base@.contains_key(test) ==> store_drv(base@[test]@),
        head@.contains_key(test) ==> store_drv(head@[test]@),
    ensures
        ({
            let found = merged(test_rows(base), test_rows(head));
            let b = if base@.contains_key(test) {
                Some(base@[test]@)
            } else {
                None
            };
            let h = if head@.contains_key(test) {
                Some(head@[test]@)
            } else {
                None
            };
            if b == h {
                no_change(found, test)
            } else {
                found.contains(
                    Change { attr: test, base: b, head: h, base_threw: false, head_threw: false },
                )
            }
        }),
{
    law_changed_tests_are_the_disagreements(base, head, test);
    lemma_change_at(merged(test_rows(base), test_rows(head)), test);
    if base@.contains_key(test) {
        law_strip_then_restore(base@[test]@);
    }
    if head@.contains_key(test) {
        law_strip_then_restore(head@[test]@);
    }
}

/// What is said of a changed attr is what its fields hold: no side is taken for the other.
pub proof fn law_changes_say_what_their_fields_hold(c: ChangedAttr, v: Seq<ChangedAttr>, i: int)
    ensures
        c@.attr == c.attr@,
        c@.base is Some <==> c.base_drv is Some,
        c.base_drv is Some ==> c@.base->0 == c.base_drv->0@,
        c@.head is Some <==> c.head_drv is Some,
        c.head_drv is Some ==> c@.head->0 == c.head_drv->0@,
        c@.base_threw == c.base_threw,
        c@.head_threw == c.head_threw,
        changes(v).len() == v.len(),
        0 <= i < v.len() ==> changes(v)[i] == v[i]@,
{
}

/// The rows of evaluations hold their attrs and derivations, one for one and in their order.
pub proof fn law_rows_hold_attrs_and_derivations(
    v: Seq<AttrEval>,
    rows: Seq<EvalRow>,
    lines: Seq<Seq<char>>,
    i: int,
)
    ensures
        evals_of(v).len() == v.len(),
        0 <= i < v.len() ==> evals_of(v)[i] == (v[i].attr@, text::opt(v[i].drv_path)),
        rows_of(rows).len() == rows.len(),
        0 <= i < rows.len() ==> rows_of(rows)[i] == (rows[i].0@, text::opt(rows[i].1)),
        parsed_all(lines).len() == lines.len(),
        0 <= i < lines.len() ==> parsed_all(lines)[i] == parsed(lines[i]),
{
}

} // verus!
