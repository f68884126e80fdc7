//! Runs the three supported statement shapes against the storage stack.
//!
//! Statements arrive in the library's own form: whoever parses SQL hands over
//! the parts the executor reads. A table's rows live in a chain of slotted
//! pages starting at its first page; rows are appended at the tail and read
//! back in chain order, then slot order.
use vstd::prelude::*;
use crate::buffer::{flushed, BufferPool};
use crate::database::{
    catalog_saved, decode_values, encodable, encode_values, format_value, value_text, ColumnDef, Database, has_name, Row,
    TableMetadata, Value, ValueModel,
};
use crate::slotted_page::{
    free_space_of, next_page_of, num_slots_of, slot_length_of, slot_offset_of, slot_pos, slotted_wf, tuple_of,
    tuples_of, SlottedPage, NO_NEXT_PAGE, SLOT_SIZE,
};
use crate::storage::{Page, PageId, PAGE_SIZE};
use crate::text::{decimal, parse_i64, parsed_i64, u64_text};
use vstd::utf8::encode_utf8;

verus! {

/// A literal or other expression of a VALUES row.
#[derive(Debug)]
pub enum Expr {
    Number(String),
    SingleQuotedString(String),
    DoubleQuotedString(String),
    Boolean(bool),
    Null,
    /// Another kind of literal, with its rendering.
    OtherValue(String),
    /// Another kind of expression, with its rendering.
    Other(String),
}

/// An item of a SELECT list.
#[derive(Debug)]
pub enum SelectItem {
    Wildcard,
    Other,
}

/// An entry of a FROM clause.
#[derive(Debug)]
pub enum TableFactor {
    Table(String),
    Other,
}

/// The body of a query.
#[derive(Debug)]
pub enum SetExpr {
    Select { projection: Vec<SelectItem>, from: Vec<TableFactor> },
    Values(Vec<Vec<Expr>>),
    Other,
}

/// A parsed statement.
#[derive(Debug)]
pub enum Statement {
    CreateTable { name: String, columns: Vec<ColumnDef> },
    Insert { table: String, source: Option<SetExpr> },
    Query(SetExpr),
    Other,
}

pub open spec fn table_msg(name: Seq<char>, tail: Seq<char>) -> Seq<char> {
    "Table '"@ + name + tail
}

/// The value an expression stands for, or the error it gives.
pub open spec fn expr_value(e: Expr) -> Result<ValueModel, Seq<char>> {
    match e {
        Expr::Number(n) => match parsed_i64(n@) {
            Some(x) => Ok(ValueModel::Long(x)),
            None => Err("Invalid number: "@ + n@),
        },
        Expr::SingleQuotedString(s) => Ok(ValueModel::Text(s@)),
        Expr::DoubleQuotedString(s) => Ok(ValueModel::Text(s@)),
        Expr::Boolean(b) => Ok(ValueModel::Bool(b)),
        Expr::Null => Err("NULL not supported yet"@),
        Expr::OtherValue(d) => Err("Unsupported value type: "@ + d@),
        Expr::Other(d) => Err("Unsupported expression: "@ + d@),
    }
}

/// Translates an expression to a value: a number to a `Long`, a quoted
/// string to a `Text`, a boolean to a `Bool`; anything else is an error.
pub fn expr_to_value(expr: &Expr) -> (r: Result<Value, String>)
    ensures
        r is Ok <==> expr_value(*expr) is Ok,
        r is Ok ==> r->Ok_0@ == expr_value(*expr)->Ok_0,
        r is Err ==> r->Err_0@ == expr_value(*expr)->Err_0,
{
    match expr {
        Expr::Number(n) => match parse_i64(n.as_str()) {
            Some(x) => Ok(Value::Long(x)),
            None => {
                let mut m = "Invalid number: ".to_string();
                m.append(n.as_str());
                Err(m)
            },
        },
        Expr::SingleQuotedString(s) => Ok(Value::Text(s.clone())),
        Expr::DoubleQuotedString(s) => Ok(Value::Text(s.clone())),
        Expr::Boolean(b) => Ok(Value::Bool(*b)),
        Expr::Null => Err("NULL not supported yet".to_string()),
        Expr::OtherValue(d) => {
            let mut m = "Unsupported value type: ".to_string();
            m.append(d.as_str());
            Err(m)
        },
        Expr::Other(d) => {
            let mut m = "Unsupported expression: ".to_string();
            m.append(d.as_str());
            Err(m)
        },
    }
}

// ---------------------------------------------------------------------------
// Reading a heap chain
/// Whether slot `i`'s entry and payload lie within the page.
pub open spec fn slot_readable(d: Seq<u8>, i: int) -> bool {
    slot_pos(i) + SLOT_SIZE <= PAGE_SIZE && slot_offset_of(d, i) + slot_length_of(d, i) <= PAGE_SIZE
}

/// The readable payloads among the first `k` slots, in slot order.
pub open spec fn readable_tuples(d: Seq<u8>, k: int) -> Seq<Seq<u8>>
    decreases k,
{
    if k <= 0 {
        Seq::empty()
    } else if slot_readable(d, k - 1) {
        readable_tuples(d, k - 1).push(tuple_of(d, k - 1))
    } else {
        readable_tuples(d, k - 1)
    }
}

pub open spec fn page_tuples(d: Seq<u8>) -> Seq<Seq<u8>> {
    readable_tuples(d, num_slots_of(d))
}

pub open spec fn then_opt<A>(done: Seq<A>, rest: Option<Seq<A>>) -> Option<Seq<A>> {
    match rest {
        Some(r) => Some(done + r),
        None => None,
    }
}

/// Every slot's entry and payload lie within the page.
pub open spec fn page_readable(d: Seq<u8>) -> bool {
    forall|i: int| 0 <= i < num_slots_of(d) ==> #[trigger] slot_readable(d, i)
}

/// The payloads of the chain that starts at page `id`, page by page, within
/// `fuel` pages; `None` when a page is missing, has a slot outside the page,
/// or the chain does not end.
pub open spec fn chain_tuples(pool: BufferPool, id: PageId, fuel: nat) -> Option<Seq<Seq<u8>>>
    decreases fuel,
{
    if fuel == 0 {
        None
    } else {
        match pool.current(id) {
            None => None,
            Some(d) => if !page_readable(d) {
                None
            } else if next_page_of(d) == NO_NEXT_PAGE {
                Some(page_tuples(d))
            } else {
                then_opt(page_tuples(d), chain_tuples(pool, next_page_of(d) as PageId, (fuel - 1) as nat))
            },
        }
    }
}

/// Decodes every payload; `None` when one of them does not decode.
pub open spec fn decode_all(ts: Seq<Seq<u8>>) -> Option<Seq<Seq<ValueModel>>>
    decreases ts.len(),
{
    if ts.len() == 0 {
        Some(Seq::empty())
    } else {
        match (decode_all(ts.drop_last()), decode_values(ts.last())) {
            (Some(a), Some(r)) => Some(a.push(r)),
            _ => None,
        }
    }
}

/// Parts joined by single tabs.
pub open spec fn join_tab(parts: Seq<Seq<char>>) -> Seq<char>
    decreases parts.len(),
{
    if parts.len() == 0 {
        Seq::empty()
    } else if parts.len() == 1 {
        parts[0]
    } else {
        join_tab(parts.drop_last()) + seq!['\t'] + parts.last()
    }
}

pub open spec fn row_line(row: Seq<ValueModel>) -> Seq<char> {
    join_tab(Seq::new(row.len(), |i: int| value_text(row[i]))) + seq!['\n']
}

pub open spec fn rows_text(rows: Seq<Seq<ValueModel>>) -> Seq<char>
    decreases rows.len(),
{
    if rows.len() == 0 {
        Seq::empty()
    } else {
        rows_text(rows.drop_last()) + row_line(rows.last())
    }
}

pub open spec fn column_names(schema: Seq<ColumnDef>) -> Seq<Seq<char>> {
    Seq::new(schema.len(), |i: int| schema[i].name@)
}

/// Column names joined by tabs, then a line of ten hyphens per column.
pub open spec fn header_text(names: Seq<Seq<char>>) -> Seq<char> {
    join_tab(names) + seq!['\n'] + Seq::new(10 * names.len(), |i: int| '-') + seq!['\n']
}

/// The output of `SELECT *`: header, one line per row, and the row count.
pub open spec fn select_text(names: Seq<Seq<char>>, rows: Seq<Seq<ValueModel>>) -> Seq<char> {
    header_text(names) + rows_text(rows) + "("@ + decimal(rows.len()) + " rows)"@
}

/// The number of pages a chain may visit: one more than there are page ids.
pub open spec fn chain_fuel(pool: BufferPool) -> nat {
    pool.next_id() as nat + 1
}

/// Where a query reads from: the table name, or the error for a query
/// shape other than a SELECT from a plain table.
pub open spec fn query_source(body: SetExpr) -> Result<Seq<char>, Seq<char>> {
    match body {
        SetExpr::Select { projection, from } => if from@.len() == 0 {
            Err("SELECT requires a FROM clause"@)
        } else {
            match from@[0] {
                TableFactor::Table(name) => Ok(name@),
                TableFactor::Other => Err("Only simple table references are supported"@),
            }
        },
        _ => Err("Only SELECT is supported"@),
    }
}

pub open spec fn is_select_star(body: SetExpr) -> bool {
    match body {
        SetExpr::Select { projection, from } => projection@.len() == 1 && projection@[0] is Wildcard,
        _ => false,
    }
}

/// Tabs between the parts; appended to `out`.
fn append_joined(out: &mut String, parts: &Vec<String>)
    ensures
        final(out)@ == old(out)@ + join_tab(Seq::new(parts@.len(), |i: int| parts@[i]@)),
{
    let ghost start = out@;
    let ghost all = Seq::new(parts@.len(), |i: int| parts@[i]@);
    let mut k: usize = 0;
    while k < parts.len()
        invariant
            0 <= k <= parts@.len(),
            all == Seq::new(parts@.len(), |i: int| parts@[i]@),
            out@ == start + join_tab(all.subrange(0, k as int)),
        decreases parts@.len() - k,
    {
        let ghost b = out@;
        proof {
            reveal_strlit("\t");
        }
        if k > 0 {
            out.append("\t");
        }
        out.append(parts[k].as_str());
        proof {
            let pre = all.subrange(0, k + 1);
            assert(pre.drop_last() =~= all.subrange(0, k as int));
            if k == 0 {
                assert(join_tab(all.subrange(0, 0)) =~= Seq::<char>::empty());
            }
            assert(out@ =~= start + join_tab(pre));
        }
        k += 1;
    }
    assert(all.subrange(0, k as int) =~= all);
}

/// Appends the output line of a row.
fn append_row_line(out: &mut String, row: &Row)
    ensures
        final(out)@ == old(out)@ + row_line(row@),
{
    let mut parts: Vec<String> = Vec::new();
    let mut i: usize = 0;
    while i < row.values.len()
        invariant
            0 <= i <= row.values@.len(),
            parts@.len() == i,
            forall|k: int| 0 <= k < i ==> #[trigger] parts@[k]@ == value_text(row@[k]),
        decreases row.values@.len() - i,
    {
        parts.push(format_value(&row.values[i]));
        i += 1;
    }
    proof {
        reveal_strlit("\n");
    }
    append_joined(out, &parts);
    assert(Seq::new(parts@.len(), |i: int| parts@[i]@) =~= Seq::new(
        row@.len(),
        |i: int| value_text(row@[i]),
    ));
    out.append("\n");
}

proof fn lemma_then_opt_assoc<A>(a: Seq<A>, b: Seq<A>, rest: Option<Seq<A>>)
    ensures
        then_opt(a, then_opt(b, rest)) == then_opt(a + b, rest),
{
    match rest {
        Some(r) => {
            assert(a + (b + r) =~= (a + b) + r);
        },
        None => {},
    }
}

proof fn lemma_decode_all_append(a: Seq<Seq<u8>>, b: Seq<Seq<u8>>)
    requires
        decode_all(a + b) is Some,
    ensures
        decode_all(a) is Some,
    decreases b.len(),
{
    if b.len() == 0 {
        assert(a + b =~= a);
    } else {
        assert((a + b).drop_last() =~= a + b.drop_last());
        lemma_decode_all_append(a, b.drop_last());
    }
}

proof fn lemma_readable_prefix(d: Seq<u8>, k: int, n: int) -> (c: Seq<Seq<u8>>)
    requires
        0 <= k <= n,
    ensures
        readable_tuples(d, n) == readable_tuples(d, k) + c,
    decreases n - k,
{
    if k == n {
        assert(readable_tuples(d, n) =~= readable_tuples(d, k) + Seq::<Seq<u8>>::empty());
        Seq::empty()
    } else {
        let c0 = lemma_readable_prefix(d, k, n - 1);
        if slot_readable(d, n - 1) {
            let c = c0.push(tuple_of(d, n - 1));
            assert(readable_tuples(d, n) =~= readable_tuples(d, k) + c);
            c
        } else {
            c0
        }
    }
}

/// Appends the rows of the chain that starts at `first` to `out`, walking
/// the chain through the buffer pool. Returns the number of rows.
fn scan_chain(pool: &mut BufferPool, first: PageId, out: &mut String) -> (r: Result<u64, String>)
    requires
        old(pool).wf(),
    ensures
        final(pool).wf(),
        forall|x: PageId| #[trigger] final(pool).current(x) == old(pool).current(x),
        final(pool).next_id() == old(pool).next_id(),
        final(pool).capacity_of() == old(pool).capacity_of(),
        ({
            let ts = chain_tuples(*old(pool), first, chain_fuel(*old(pool)));
            r is Ok <==> (ts is Some && decode_all(ts->Some_0) is Some)
        }),
        r is Ok ==> {
            let rows = decode_all(chain_tuples(*old(pool), first, chain_fuel(*old(pool)))->Some_0)->Some_0;
            &&& r->Ok_0 == rows.len()
            &&& final(out)@ == old(out)@ + rows_text(rows)
        },
{
    let ghost pa = *pool;
    let ghost fuel = chain_fuel(pa);
    let ghost start = out@;
    let bound: u64 = pool.next_page_id() as u64 + 1;
    let mut hops: u64 = 0;
    let mut current = first;
    let mut count: u64 = 0;
    let ghost mut done_tuples: Seq<Seq<u8>> = Seq::empty();
    let ghost mut done_rows: Seq<Seq<ValueModel>> = Seq::empty();
    let mut scratch = SlottedPage::new(Page::new());
    loop
        invariant
            pool.wf(),
            scratch.wf(),
            forall|x: PageId| #[trigger] pool.current(x) == pa.current(x),
            pool.next_id() == pa.next_id(),
            pool.capacity_of() == pa.capacity_of(),
            bound == fuel,
            fuel == chain_fuel(pa),
            pa == *old(pool),
            start == old(out)@,
            hops < bound,
            chain_tuples(pa, first, fuel) == then_opt(
                done_tuples,
                chain_tuples(pa, current, (fuel - hops) as nat),
            ),
            decode_all(done_tuples) == Some(done_rows),
            out@ == start + rows_text(done_rows),
            count == done_rows.len(),
            count <= hops * 65536,
        decreases bound - hops,
    {
        let f = match pool.fetch_page(current) {
            Ok(f) => f,
            Err(e) => {
                return Err(e);
            },
        };
        let ghost d = pool.frame_bytes(f as int);
        let page = pool.page(f).copy();
        let sp = SlottedPage::new(page);
        let n = sp.num_slots();
        let mut slot: u16 = 0;
        let ghost done_before = done_tuples;
        while slot < n
            invariant
                sp.wf(),
                sp.bytes() == d,
                n == num_slots_of(d),
                0 <= slot <= n,
                done_tuples == done_before + readable_tuples(d, slot as int),
                forall|k: int| 0 <= k < slot ==> #[trigger] slot_readable(d, k),
                decode_all(done_tuples) == Some(done_rows),
                out@ == start + rows_text(done_rows),
                count == done_rows.len(),
                count <= hops * 65536 + slot,
                hops < bound,
                bound == fuel,
                fuel == chain_fuel(pa),
                pa == *old(pool),
                start == old(out)@,
                pool.next_id() == pa.next_id(),
                pool.capacity_of() == pa.capacity_of(),
                pool.wf(),
                forall|x: PageId| #[trigger] pool.current(x) == pa.current(x),
                pa.current(current) == Some(d),
                chain_tuples(pa, first, fuel) == then_opt(
                    done_before,
                    chain_tuples(pa, current, (fuel - hops) as nat),
                ),
            decreases n - slot,
        {
            match sp.get_tuple(slot) {
                Some(bytes) => {
                    match Row::from_bytes(bytes.as_slice()) {
                        Ok(row) => {
                            let ghost b = out@;
                            append_row_line(out, &row);
                            proof {
                                let nt = done_tuples.push(bytes@);
                                assert(nt.drop_last() =~= done_tuples);
                                assert(done_before + readable_tuples(d, slot + 1) =~= nt);
                                let nr = done_rows.push(row@);
                                assert(nr.drop_last() =~= done_rows);
                                done_tuples = nt;
                                done_rows = nr;
                            }
                            count = count + 1;
                        },
                        Err(e) => {
                            proof {
                                let nt = done_tuples.push(bytes@);
                                assert(nt.drop_last() =~= done_tuples);
                                assert(decode_all(nt) is None);
                                assert(done_before + readable_tuples(d, slot + 1) =~= nt);
                                let c = lemma_readable_prefix(d, slot + 1, n as int);
                                if page_readable(d) {
                                let rest = if next_page_of(d) == NO_NEXT_PAGE {
                                    Some(Seq::<Seq<u8>>::empty())
                                } else {
                                    chain_tuples(pa, next_page_of(d) as PageId, (fuel - hops - 1) as nat)
                                };
                                assert(chain_tuples(pa, current, (fuel - hops) as nat) == then_opt(
                                    page_tuples(d),
                                    rest,
                                )) by {
                                    if next_page_of(d) == NO_NEXT_PAGE {
                                        assert(page_tuples(d) + Seq::<Seq<u8>>::empty() =~= page_tuples(d));
                                    }
                                }
                                lemma_then_opt_assoc(done_before, page_tuples(d), rest);
                                assert(done_before + page_tuples(d) =~= nt + c);
                                match rest {
                                    Some(x) => {
                                        assert((nt + c) + x =~= nt + (c + x));
                                        if decode_all(nt + (c + x)) is Some {
                                            lemma_decode_all_append(nt, c + x);
                                        }
                                    },
                                    None => {},
                                }
                                }
                            }
                            let mut m = "Failed to deserialize row: ".to_string();
                            m.append(e.as_str());
                            return Err(m);
                        },
                    }
                },
                None => {
                    assert(!slot_readable(d, slot as int));
                    assert(!page_readable(d));
                    return Err("Failed to deserialize row: slot lies outside the page".to_string());
                },
            }
            slot = slot + 1;
        }
        let next = sp.next_page_id();
        proof {
            assert(page_readable(d));
            assert(done_tuples == done_before + page_tuples(d));
            lemma_then_opt_assoc(
                done_before,
                page_tuples(d),
                chain_tuples(pa, next as PageId, (fuel - hops - 1) as nat),
            );
        }
        if next == NO_NEXT_PAGE {
            proof {
                assert(done_tuples + Seq::<Seq<u8>>::empty() =~= done_tuples);
            }
            return Ok(count);
        }
        current = next;
        hops = hops + 1;
        if hops >= bound {
            return Err("Heap chain does not end".to_string());
        }
    }
}

// ---------------------------------------------------------------------------
// Shape of a heap chain
/// The payloads of the given pages, page by page, in slot order.
pub open spec fn along(pool: BufferPool, pages: Seq<PageId>) -> Seq<Seq<u8>>
    decreases pages.len(),
{
    if pages.len() == 0 {
        Seq::empty()
    } else {
        tuples_of(pool.current(pages[0])->Some_0) + along(pool, pages.drop_first())
    }
}

/// `pages` is a heap chain in `pool`: every page present and in the slotted
/// layout, each linking to the next, the last one ending the chain, and no
/// page twice.
pub open spec fn chain_witness(pool: BufferPool, pages: Seq<PageId>) -> bool {
    &&& pages.len() > 0
    &&& pages.no_duplicates()
    &&& forall|k: int|
        0 <= k < pages.len() ==> #[trigger] pool.current(pages[k]) is Some && slotted_wf(
            pool.current(pages[k])->Some_0,
        )
    &&& forall|k: int|
        0 <= k < pages.len() - 1 ==> next_page_of(#[trigger] pool.current(pages[k])->Some_0)
            == pages[k + 1]
    &&& next_page_of(pool.current(pages.last())->Some_0) == NO_NEXT_PAGE
}

proof fn lemma_page_tuples_wf(d: Seq<u8>)
    requires
        slotted_wf(d),
    ensures
        page_tuples(d) == tuples_of(d),
{
    let n = num_slots_of(d);
    assert forall|k: int| 0 <= k <= n implies #[trigger] readable_tuples(d, k) == tuples_of(d).subrange(0, k) by {
        lemma_readable_all(d, k);
    }
    assert(tuples_of(d).subrange(0, n) =~= tuples_of(d));
}

proof fn lemma_readable_all(d: Seq<u8>, k: int)
    requires
        slotted_wf(d),
        0 <= k <= num_slots_of(d),
    ensures
        readable_tuples(d, k) == tuples_of(d).subrange(0, k),
    decreases k,
{
    if k > 0 {
        lemma_readable_all(d, k - 1);
        assert(slot_pos(k - 1) + SLOT_SIZE <= slot_pos(num_slots_of(d)));
        assert(slot_readable(d, k - 1));
        assert(tuples_of(d).subrange(0, k) =~= tuples_of(d).subrange(0, k - 1).push(tuple_of(d, k - 1)));
    } else {
        assert(tuples_of(d).subrange(0, 0) =~= Seq::<Seq<u8>>::empty());
    }
}

proof fn lemma_chain_fits(pool: BufferPool, pages: Seq<PageId>)
    requires
        pool.wf(),
        chain_witness(pool, pages),
    ensures
        pages.len() <= pool.next_id(),
        forall|k: int| 0 <= k < pages.len() ==> #[trigger] pages[k] < pool.next_id(),
{
    assert forall|k: int| 0 <= k < pages.len() implies #[trigger] pages[k] < pool.next_id() by {
        assert(pool.current(pages[k]) is Some);
        pool.lemma_current_defined(pages[k]);
    }
    let ints = pages.map_values(|p: PageId| p as int);
    assert(ints.no_duplicates()) by {
        assert forall|a: int, b: int| 0 <= a < ints.len() && 0 <= b < ints.len() && a != b implies ints[a] != ints[b] by {
            assert(pages[a] != pages[b]);
        }
    }
    ints.unique_seq_to_set();
    vstd::set_lib::lemma_int_range(0, pool.next_id() as int);
    assert(ints.to_set().subset_of(vstd::set_lib::set_int_range(0, pool.next_id() as int))) by {
        assert forall|x: int| ints.to_set().contains(x) implies vstd::set_lib::set_int_range(0, pool.next_id() as int).contains(x) by {
            let k = choose|k: int| 0 <= k < ints.len() && ints[k] == x;
            assert(pages[k] < pool.next_id());
        }
    }
    vstd::set_lib::lemma_len_subset(ints.to_set(), vstd::set_lib::set_int_range(0, pool.next_id() as int));
}

proof fn lemma_witness_suffix(pool: BufferPool, pages: Seq<PageId>)
    requires
        chain_witness(pool, pages),
        pages.len() > 1,
    ensures
        chain_witness(pool, pages.drop_first()),
{
    let t = pages.drop_first();
    assert forall|k: int| 0 <= k < t.len() implies #[trigger] pool.current(t[k]) is Some && slotted_wf(
        pool.current(t[k])->Some_0,
    ) by {
        assert(t[k] == pages[k + 1]);
    }
    assert forall|k: int| 0 <= k < t.len() - 1 implies next_page_of(#[trigger] pool.current(t[k])->Some_0)
        == t[k + 1] by {
        assert(t[k] == pages[k + 1]);
        assert(pool.current(pages[k + 1]) is Some);
    }
    assert(t.last() == pages.last());
}

/// A chain with a witness reads, page by page, as the payloads of its pages,
/// whatever fuel at least its length.
proof fn lemma_chain_reads(pool: BufferPool, pages: Seq<PageId>, fuel: nat)
    requires
        pool.wf(),
        chain_witness(pool, pages),
        fuel >= pages.len(),
    ensures
        chain_tuples(pool, pages[0], fuel) == Some(along(pool, pages)),
    decreases pages.len(),
{
    let d = pool.current(pages[0])->Some_0;
    assert(pool.current(pages[0]) is Some);
    lemma_page_tuples_wf(d);
    assert forall|i: int| 0 <= i < num_slots_of(d) implies #[trigger] slot_readable(d, i) by {
        assert(slot_pos(i) + SLOT_SIZE <= slot_pos(num_slots_of(d)));
    }
    if pages.len() == 1 {
        assert(pages.last() == pages[0]);
        assert(pages.drop_first() =~= Seq::<PageId>::empty());
        assert(along(pool, pages.drop_first()) =~= Seq::<Seq<u8>>::empty());
        assert(along(pool, pages) =~= tuples_of(d));
    } else {
        assert(next_page_of(d) == pages[1]);
        lemma_chain_fits(pool, pages);
        assert(pages[1] < pool.next_id());
        lemma_witness_suffix(pool, pages);
        lemma_chain_reads(pool, pages.drop_first(), (fuel - 1) as nat);
        assert(pages.drop_first()[0] == pages[1]);
    }
}

/// A table whose pages form a chain reads back, through the scan that
/// `SELECT *` performs, as the payloads of its pages in chain order, then
/// slot order.
pub proof fn lemma_scan_order(pool: BufferPool, pages: Seq<PageId>)
    requires
        pool.wf(),
        chain_witness(pool, pages),
    ensures
        chain_tuples(pool, pages[0], chain_fuel(pool)) == Some(along(pool, pages)),
{
    lemma_chain_fits(pool, pages);
    lemma_chain_reads(pool, pages, chain_fuel(pool));
}

/// The payloads along a chain depend only on the payloads of its pages.
proof fn lemma_along_frame(pb: BufferPool, pc: BufferPool, pages: Seq<PageId>)
    requires
        forall|k: int|
            0 <= k < pages.len() ==> tuples_of(#[trigger] pc.current(pages[k])->Some_0) == tuples_of(
                pb.current(pages[k])->Some_0,
            ),
    ensures
        along(pc, pages) == along(pb, pages),
    decreases pages.len(),
{
    if pages.len() > 0 {
        let t = pages.drop_first();
        assert forall|k: int| 0 <= k < t.len() implies tuples_of(#[trigger] pc.current(t[k])->Some_0)
            == tuples_of(pb.current(t[k])->Some_0) by {
            assert(t[k] == pages[k + 1]);
            assert(pc.current(pages[k + 1]) == pc.current(t[k]));
        }
        lemma_along_frame(pb, pc, t);
        assert(pc.current(pages[0]) == pc.current(pages[0]));
    }
}

proof fn lemma_along_push(pool: BufferPool, pages: Seq<PageId>, x: PageId)
    ensures
        along(pool, pages.push(x)) == along(pool, pages) + tuples_of(pool.current(x)->Some_0),
    decreases pages.len(),
{
    if pages.len() == 0 {
        assert(pages.push(x).drop_first() =~= Seq::<PageId>::empty());
        assert(along(pool, pages.push(x).drop_first()) =~= Seq::<Seq<u8>>::empty());
        assert(pages.push(x)[0] == x);
        assert(along(pool, pages.push(x)) =~= tuples_of(pool.current(x)->Some_0));
        assert(along(pool, pages) =~= Seq::<Seq<u8>>::empty());
        assert(along(pool, pages.push(x)) =~= along(pool, pages) + tuples_of(pool.current(x)->Some_0));
    } else {
        lemma_along_push(pool, pages.drop_first(), x);
        assert(pages.push(x).drop_first() =~= pages.drop_first().push(x));
        assert(pages.push(x)[0] == pages[0]);
        assert(along(pool, pages.push(x)) =~= along(pool, pages) + tuples_of(pool.current(x)->Some_0));
    }
}

proof fn lemma_along_last(pool: BufferPool, pages: Seq<PageId>)
    requires
        pages.len() > 0,
    ensures
        along(pool, pages) == along(pool, pages.drop_last()) + tuples_of(pool.current(pages.last())->Some_0),
{
    lemma_along_push(pool, pages.drop_last(), pages.last());
    assert(pages.drop_last().push(pages.last()) =~= pages);
}

// ---------------------------------------------------------------------------
// Appending to a heap chain
/// A chain that avoids the pages whose content changed keeps its shape and
/// its payloads.
proof fn lemma_witness_frame(pb: BufferPool, pc: BufferPool, pages: Seq<PageId>)
    requires
        chain_witness(pb, pages),
        forall|k: int| 0 <= k < pages.len() ==> #[trigger] pc.current(pages[k]) == pb.current(pages[k]),
    ensures
        chain_witness(pc, pages),
        along(pc, pages) == along(pb, pages),
{
    assert forall|k: int| 0 <= k < pages.len() - 1 implies next_page_of(#[trigger] pc.current(pages[k])->Some_0)
        == pages[k + 1] by {
        assert(pc.current(pages[k]) == pb.current(pages[k]));
    }
    assert(pc.current(pages.last()) == pb.current(pages[pages.len() - 1]));
    assert forall|k: int| 0 <= k < pages.len() implies tuples_of(#[trigger] pc.current(pages[k])->Some_0)
        == tuples_of(pb.current(pages[k])->Some_0) by {
        assert(pc.current(pages[k]) == pb.current(pages[k]));
    }
    lemma_along_frame(pb, pc, pages);
}

/// The largest tuple an empty slotted page holds.
pub const MAX_TUPLE: usize = 4084;

/// The heap chain `pages` ends at `last`.
pub open spec fn chain_ends_at(pool: BufferPool, pages: Seq<PageId>, last: PageId) -> bool {
    chain_witness(pool, pages) && pages.last() == last
}

/// Appends a tuple to the chain, starting the walk at `last_page_id`: the
/// first page on the way with room takes it; at the tail a new page is
/// created, takes the tuple and is linked after the tail. Returns the page
/// that holds the tuple. When `last_page_id` ends a heap chain, the chain
/// grows by the tuple, at its end, and every chain that avoids the tail page
/// is left as it was.
fn insert_tuple(pool: &mut BufferPool, last_page_id: PageId, bytes: &[u8]) -> (r: Result<
    PageId,
    String,
>)
    requires
        old(pool).wf(),
    ensures
        final(pool).wf(),
        final(pool).next_id() >= old(pool).next_id(),
        final(pool).capacity_of() == old(pool).capacity_of(),
        r is Ok ==> {
            let d = final(pool).current(r->Ok_0)->Some_0;
            &&& final(pool).current(r->Ok_0) is Some
            &&& num_slots_of(d) >= 1
            &&& tuple_of(d, num_slots_of(d) - 1) == bytes@
        },
        old(pool).current(last_page_id) is None ==> r is Err,
        final(pool).next_id() <= old(pool).next_id() + 1,
        (exists|pages: Seq<PageId>| chain_ends_at(*old(pool), pages, last_page_id)) && r is Ok
            ==> r->Ok_0 == last_page_id || r->Ok_0 == old(pool).next_id(),
        (exists|pages: Seq<PageId>| chain_ends_at(*old(pool), pages, last_page_id)) && bytes@.len()
            <= MAX_TUPLE && old(pool).next_id() < u32::MAX ==> r is Ok,
        forall|pages: Seq<PageId>|
            #![trigger chain_ends_at(*old(pool), pages, last_page_id)]
            chain_ends_at(*old(pool), pages, last_page_id) ==> {
                &&& r is Ok ==> {
                    let grown = if r->Ok_0 == last_page_id {
                        pages
                    } else {
                        pages.push(r->Ok_0)
                    };
                    &&& chain_ends_at(*final(pool), grown, r->Ok_0)
                    &&& along(*final(pool), grown) == along(*old(pool), pages).push(bytes@)
                }
                &&& r is Err ==> chain_witness(*final(pool), pages) && along(*final(pool), pages)
                    == along(*old(pool), pages)
            },
        forall|pages: Seq<PageId>, other: Seq<PageId>|
            #![trigger chain_ends_at(*old(pool), pages, last_page_id), chain_witness(*old(pool), other)]
            chain_ends_at(*old(pool), pages, last_page_id) && chain_witness(*old(pool), other)
                && !other.contains(last_page_id) ==> chain_witness(*final(pool), other) && along(
                *final(pool),
                other,
            ) == along(*old(pool), other),
        forall|pages: Seq<PageId>, m: int|
            #[trigger] hint_on(*old(pool), pages, m, last_page_id) ==> {
                &&& bytes@.len() <= MAX_TUPLE && old(pool).next_id() < u32::MAX ==> r is Ok
                &&& bytes@.len() > MAX_TUPLE && old(pool).next_id() < u32::MAX ==> r is Err
                    && r->Err_0@ == "Tuple too large for page: Page full"@
                &&& r is Ok && r->Ok_0 != old(pool).next_id() ==> exists|k: int|
                    m <= k < pages.len() && pages[k] == r->Ok_0 && #[trigger] appended_within(
                        *old(pool),
                        *final(pool),
                        pages,
                        k,
                        bytes@,
                    )
                &&& r is Ok && r->Ok_0 == old(pool).next_id() ==> chain_ends_at(
                    *final(pool),
                    pages.push(r->Ok_0),
                    r->Ok_0,
                ) && along(*final(pool), pages.push(r->Ok_0)) == along(*old(pool), pages).push(bytes@)
            },
{
    let bound: u64 = pool.next_page_id() as u64 + 1;
    let mut hops: u64 = 0;
    let mut current = last_page_id;
    let mut scratch = SlottedPage::new(Page::new());
    let ghost pa = *pool;
    loop
        invariant
            pool.wf(),
            scratch.wf(),
            hops < bound,
            bound == pa.next_id() + 1,
            pa == *old(pool),
            pa.wf(),
            pool.next_id() == pa.next_id(),
            pool.capacity_of() == pa.capacity_of(),
            hops == 0 ==> current == last_page_id,
            forall|x: PageId| #[trigger] pool.current(x) == pa.current(x),
            forall|pages: Seq<PageId>, m: int|
                #[trigger] hint_on(pa, pages, m, last_page_id) ==> m + hops < pages.len() && pages[m
                    + hops] == current,
            hops > 0 ==> pa.current(last_page_id) is Some,
            hops > 0 ==> forall|pages: Seq<PageId>| !chain_ends_at(pa, pages, last_page_id),
        decreases bound - hops,
    {
        let ghost pre = *pool;
        let f = match pool.fetch_page(current) {
            Ok(f) => f,
            Err(e) => {
                proof {
                    assert forall|pages: Seq<PageId>, m: int| #[trigger] hint_on(pa, pages, m, last_page_id) implies false by {
                        assert(pa.current(pages[m + hops]) is Some);
                    }
                    if exists|pages: Seq<PageId>| chain_ends_at(pa, pages, last_page_id) {
                        let pages = choose|pages: Seq<PageId>| chain_ends_at(pa, pages, last_page_id);
                        assert(pa.current(pages[pages.len() - 1]) is Some);
                    }
                    if hops == 0 {
                        assert forall|q: Seq<PageId>| chain_witness(pa, q) implies chain_witness(*pool, q) && along(*pool, q) == along(pa, q) by {
                            lemma_witness_frame(pa, *pool, q);
                        }
                    }
                }
                return Err(e);
            },
        };
        assert(hops == 0 ==> pa.current(last_page_id) is Some);
        let ghost d0 = pool.frame_bytes(f as int);
        assert(pa.current(current) == Some(d0));
        let ghost fetched = *pool;
        pool.swap_page(f, &mut scratch.page);
        assert(scratch.bytes() == d0);
        let added = scratch.add_tuple(bytes);
        let ghost d1 = scratch.bytes();
        let next = scratch.next_page_id();
        pool.swap_page(f, &mut scratch.page);
        let ghost after_add = *pool;
        assert(forall|x: PageId| x != current ==> #[trigger] after_add.current(x) == pre.current(x));
        assert(after_add.current(current) == Some(d1));
        if added.is_ok() {
            proof {
                pa.lemma_current_defined(current);
                assert forall|pages: Seq<PageId>, m: int| #[trigger] hint_on(pa, pages, m, last_page_id) implies bytes@.len()
                    <= MAX_TUPLE && exists|k: int| m <= k < pages.len() && pages[k] == current && #[trigger] appended_within(pa, *pool, pages, k, bytes@) by {
                    let k = m + hops;
                    assert(pa.current(pages[k]) is Some);
                    assert(slotted_wf(d0));
                    lemma_append_in_place(pa, *pool, pages, k, d0, d1, bytes@);
                }
                if hops == 0 {
                    assert forall|pages: Seq<PageId>| #[trigger] chain_ends_at(pa, pages, last_page_id) implies chain_ends_at(*pool, pages, current)
                        && along(*pool, pages) == along(pa, pages).push(bytes@) by {
                        let n = pages.len() - 1;
                        assert(pages[n] == last_page_id);
                        assert(pa.current(pages[n]) == Some(d0));
                        assert forall|k: int| 0 <= k < n implies #[trigger] pool.current(pages[k]) == pa.current(pages[k]) by {
                            assert(pages[k] != pages[n]);
                        }
                        let init = pages.drop_last();
                        assert forall|k: int| 0 <= k < init.len() implies #[trigger] pool.current(init[k]) == pa.current(init[k]) by {
                            assert(init[k] == pages[k]);
                        }
                        assert forall|k: int| 0 <= k < init.len() implies tuples_of(#[trigger] pool.current(init[k])->Some_0) == tuples_of(pa.current(init[k])->Some_0) by {
                            assert(init[k] == pages[k]);
                        }
                        lemma_along_frame(pa, *pool, init);
                        lemma_along_last(pa, pages);
                        lemma_along_last(*pool, pages);
                        assert(tuples_of(d1) == tuples_of(d0).push(bytes@));
                        assert forall|k: int| 0 <= k < pages.len() implies #[trigger] pool.current(pages[k]) is Some && slotted_wf(
                            pool.current(pages[k])->Some_0,
                        ) by {
                            if k < n {
                                assert(pool.current(pages[k]) == pa.current(pages[k]));
                            }
                        }
                        assert forall|k: int| 0 <= k < pages.len() - 1 implies next_page_of(#[trigger] pool.current(pages[k])->Some_0)
                            == pages[k + 1] by {
                            assert(pool.current(pages[k]) == pa.current(pages[k]));
                        }
                    }
                    assert forall|pages: Seq<PageId>, other: Seq<PageId>|
                        chain_ends_at(pa, pages, last_page_id) && chain_witness(pa, other) && !other.contains(last_page_id)
                        implies chain_witness(*pool, other) && along(*pool, other) == along(pa, other) by {
                        assert forall|k: int| 0 <= k < other.len() implies #[trigger] pool.current(other[k]) == pa.current(other[k]) by {
                            assert(other[k] != last_page_id);
                        }
                        lemma_witness_frame(pa, *pool, other);
                    }
                }
            }
            return Ok(current);
        }
        assert(d1 == d0);
        assert(forall|x: PageId| #[trigger] after_add.current(x) == pre.current(x)) by {
            assert(pre.current(current) == Some(d0));
        }
        if next == NO_NEXT_PAGE {
            let ghost before_create = *pool;
            let (new_id, nf) = match pool.create_page() {
                Ok(c) => c,
                Err(e) => {
                    proof {
                        assert(before_create.next_id() == pa.next_id());
                        assert(!(pa.next_id() < u32::MAX));
                        if hops == 0 {
                            assert forall|q: Seq<PageId>| chain_witness(pa, q) implies chain_witness(*pool, q) && along(*pool, q) == along(pa, q) by {
                                lemma_witness_frame(pa, *pool, q);
                            }
                        }
                    }
                    return Err(e);
                },
            };
            let ghost created = *pool;
            pool.swap_page(nf, &mut scratch.page);
            scratch.init();
            assert(free_space_of(scratch.bytes()) == PAGE_SIZE - 8);
            let placed = scratch.add_tuple(bytes);
            let ghost dn = scratch.bytes();
            pool.swap_page(nf, &mut scratch.page);
            assert(pool.current(new_id) == Some(dn));
            assert(forall|x: PageId| x != new_id ==> #[trigger] pool.current(x) == before_create.current(x));
            if placed.is_err() {
                proof {
                    if hops == 0 {
                        assert forall|q: Seq<PageId>| chain_witness(pa, q) implies chain_witness(*pool, q) && along(*pool, q) == along(pa, q) by {
                            lemma_chain_fits(pa, q);
                            assert forall|k: int| 0 <= k < q.len() implies #[trigger] pool.current(q[k]) == pa.current(q[k]) by {
                                assert(q[k] < pa.next_id());
                            }
                            lemma_witness_frame(pa, *pool, q);
                        }
                    }
                }
                return Err("Tuple too large for page: Page full".to_string());
            }
            let ghost placed_pool = *pool;
            let f2 = match pool.fetch_page(current) {
                Ok(f) => f,
                Err(e) => {
                    proof {
                        assert forall|pages: Seq<PageId>, m: int| #[trigger] hint_on(pa, pages, m, last_page_id) implies false by {
                            assert(pa.current(pages[m + hops]) is Some);
                            pa.lemma_current_defined(current);
                            assert(placed_pool.current(current) == pa.current(current));
                        }
                        if hops == 0 {
                            pa.lemma_current_defined(last_page_id);
                            assert(current < new_id);
                            assert(placed_pool.current(current) == pa.current(current));
                        }
                        if hops == 0 {
                            assert forall|q: Seq<PageId>| chain_witness(pa, q) implies chain_witness(*pool, q) && along(*pool, q) == along(pa, q) by {
                                lemma_chain_fits(pa, q);
                                assert forall|k: int| 0 <= k < q.len() implies #[trigger] pool.current(q[k]) == pa.current(q[k]) by {
                                    assert(q[k] < pa.next_id());
                                    assert(placed_pool.current(q[k]) == pa.current(q[k]));
                                }
                                lemma_witness_frame(pa, *pool, q);
                            }
                        }
                    }
                    return Err(e);
                },
            };
            proof {
                pool.lemma_current_defined(current);
            }
            let ghost linked_from = pool.frame_bytes(f2 as int);
            pool.swap_page(f2, &mut scratch.page);
            scratch.set_next_page_id(new_id);
            let ghost dl = scratch.bytes();
            pool.swap_page(f2, &mut scratch.page);
            assert(pool.current(new_id) == Some(dn));
            assert(pool.current(current) == Some(dl));
            proof {
                pa.lemma_current_defined(current);
                assert(linked_from == d0);
                assert(tuples_of(dn) =~= seq![bytes@]);
                assert forall|x: PageId| x != new_id && x != current implies #[trigger] pool.current(x) == pa.current(x) by {
                    assert(placed_pool.current(x) == pa.current(x));
                }
                assert forall|pages: Seq<PageId>, m: int| #[trigger] hint_on(pa, pages, m, last_page_id) implies chain_ends_at(
                    *pool,
                    pages.push(new_id),
                    new_id,
                ) && along(*pool, pages.push(new_id)) == along(pa, pages).push(bytes@) by {
                    let j = m + hops;
                    lemma_chain_fits(pa, pages);
                    assert(pa.current(pages[j]) is Some);
                    if j < pages.len() - 1 {
                        assert(next_page_of(d0) == pages[j + 1]);
                        assert(pages[j + 1] < pa.next_id());
                    }
                    assert(pages.last() == current);
                    lemma_new_tail(pa, *pool, pages, new_id, d0, dl, dn, bytes@);
                }
                if hops == 0 {
                    assert(linked_from == d0);
                    assert(tuples_of(dn) =~= seq![bytes@]);
                    assert forall|pages: Seq<PageId>| #[trigger] chain_ends_at(pa, pages, last_page_id) implies ({
                        let grown = pages.push(new_id);
                        &&& chain_ends_at(*pool, grown, new_id)
                        &&& along(*pool, grown) == along(pa, pages).push(bytes@)
                    }) by {
                        let n = pages.len() - 1;
                        let grown = pages.push(new_id);
                        lemma_chain_fits(pa, pages);
                        assert(pages[n] == last_page_id);
                        assert(pa.current(pages[n]) == Some(d0));
                        assert forall|k: int| 0 <= k < n implies #[trigger] pool.current(pages[k]) == pa.current(pages[k]) by {
                            assert(pages[k] != pages[n]);
                            assert(pages[k] < pa.next_id());
                        }
                        assert forall|k: int| 0 <= k < pages.len() implies tuples_of(#[trigger] pool.current(pages[k])->Some_0) == tuples_of(pa.current(pages[k])->Some_0) by {
                            if k < n {
                                assert(pool.current(pages[k]) == pa.current(pages[k]));
                            }
                        }
                        lemma_along_frame(pa, *pool, pages);
                        lemma_along_push(*pool, pages, new_id);
                        assert(seq![bytes@] =~= Seq::<Seq<u8>>::empty().push(bytes@));
                        assert(along(pa, pages) + seq![bytes@] =~= along(pa, pages).push(bytes@));
                        assert(grown.no_duplicates()) by {
                            assert forall|a: int, b: int| 0 <= a < grown.len() && 0 <= b < grown.len() && a != b implies grown[a] != grown[b] by {
                                if a < pages.len() && b < pages.len() {
                                } else if a < pages.len() {
                                    assert(pages[a] < pa.next_id());
                                } else {
                                    assert(pages[b] < pa.next_id());
                                }
                            }
                        }
                        assert forall|k: int| 0 <= k < grown.len() implies #[trigger] pool.current(grown[k]) is Some && slotted_wf(
                            pool.current(grown[k])->Some_0,
                        ) by {
                            if k < n {
                                assert(grown[k] == pages[k]);
                                assert(pool.current(pages[k]) == pa.current(pages[k]));
                            } else if k == n {
                                assert(grown[k] == pages[n]);
                            }
                        }
                        assert forall|k: int| 0 <= k < grown.len() - 1 implies next_page_of(#[trigger] pool.current(grown[k])->Some_0)
                            == grown[k + 1] by {
                            if k < n {
                                assert(grown[k] == pages[k]);
                                assert(pool.current(pages[k]) == pa.current(pages[k]));
                                assert(grown[k + 1] == pages[k + 1]);
                            } else {
                                assert(grown[k] == pages[n]);
                            }
                        }
                    }
                    assert forall|pages: Seq<PageId>, other: Seq<PageId>|
                        chain_ends_at(pa, pages, last_page_id) && chain_witness(pa, other) && !other.contains(last_page_id)
                        implies chain_witness(*pool, other) && along(*pool, other) == along(pa, other) by {
                        lemma_chain_fits(pa, other);
                        assert forall|k: int| 0 <= k < other.len() implies #[trigger] pool.current(other[k]) == pa.current(other[k]) by {
                            assert(other[k] != last_page_id);
                            assert(other[k] < pa.next_id());
                        }
                        lemma_witness_frame(pa, *pool, other);
                    }
                }
            }
            return Ok(new_id);
        }
        proof {
            if hops == 0 {
                assert forall|pages: Seq<PageId>| !chain_ends_at(pa, pages, last_page_id) by {
                    if chain_ends_at(pa, pages, last_page_id) {
                        assert(pa.current(pages[pages.len() - 1]) == Some(d0));
                    }
                }
            }
        }
        current = next;
        hops = hops + 1;
        proof {
            assert forall|pages: Seq<PageId>, m: int| #[trigger] hint_on(pa, pages, m, last_page_id) implies m + hops
                < pages.len() && pages[m + hops] == current by {
                let j = m + hops - 1;
                assert(pa.current(pages[j]) is Some);
                if j == pages.len() - 1 {
                    assert(pages.last() == pages[j]);
                }
                assert(next_page_of(d0) == pages[j + 1]);
            }
        }
        if hops >= bound {
            proof {
                assert forall|pages: Seq<PageId>, m: int| #[trigger] hint_on(pa, pages, m, last_page_id) implies false by {
                    lemma_chain_fits(pa, pages);
                }
            }
            return Err("Heap chain does not end".to_string());
        }
    }
}

/// The hint `hint` is page `m` of the heap chain `pages`.
pub open spec fn hint_on(pool: BufferPool, pages: Seq<PageId>, m: int, hint: PageId) -> bool {
    chain_witness(pool, pages) && 0 <= m < pages.len() && pages[m] == hint
}

/// In `pb`, page `k` of the chain `pages` holds one more tuple, `bytes`, at
/// the end of its slots; the chain keeps its shape, and the pages before and
/// after it their payloads.
pub open spec fn appended_within(
    pa: BufferPool,
    pb: BufferPool,
    pages: Seq<PageId>,
    k: int,
    bytes: Seq<u8>,
) -> bool {
    &&& chain_witness(pb, pages)
    &&& along(pb, pages.take(k)) == along(pa, pages.take(k))
    &&& tuples_of(pb.current(pages[k])->Some_0) == tuples_of(pa.current(pages[k])->Some_0).push(bytes)
    &&& along(pb, pages.skip(k + 1)) == along(pa, pages.skip(k + 1))
}

/// The payloads along a chain, cut at page `k`: those before it, its own,
/// and those after it.
pub proof fn lemma_along_split(pool: BufferPool, pages: Seq<PageId>, k: int)
    requires
        0 <= k < pages.len(),
    ensures
        along(pool, pages) == along(pool, pages.take(k)) + tuples_of(pool.current(pages[k])->Some_0)
            + along(pool, pages.skip(k + 1)),
    decreases k,
{
    if k == 0 {
        assert(pages.take(0) =~= Seq::<PageId>::empty());
        assert(along(pool, pages.take(0)) =~= Seq::<Seq<u8>>::empty());
        assert(pages.skip(1) =~= pages.drop_first());
        assert(along(pool, pages) =~= along(pool, pages.take(k)) + tuples_of(pool.current(pages[k])->Some_0)
            + along(pool, pages.skip(k + 1)));
    } else {
        let t = pages.drop_first();
        lemma_along_split(pool, t, k - 1);
        assert(t[k - 1] == pages[k]);
        assert(t.skip(k) =~= pages.skip(k + 1));
        assert(pages.take(k).drop_first() =~= t.take(k - 1));
        assert(pages.take(k)[0] == pages[0]);
        assert(along(pool, pages.take(k)) == tuples_of(pool.current(pages[0])->Some_0) + along(pool, t.take(k - 1)));
        assert(along(pool, pages) =~= along(pool, pages.take(k)) + tuples_of(pool.current(pages[k])->Some_0)
            + along(pool, pages.skip(k + 1)));
    }
}

proof fn lemma_sub_frame(pa: BufferPool, pb: BufferPool, pages: Seq<PageId>, sub: Seq<PageId>, k: int)
    requires
        pages.no_duplicates(),
        0 <= k < pages.len(),
        forall|x: PageId| x != pages[k] ==> #[trigger] pb.current(x) == pa.current(x),
        forall|i: int| 0 <= i < sub.len() ==> exists|j: int| 0 <= j < pages.len() && j != k && pages[j] == #[trigger] sub[i],
    ensures
        along(pb, sub) == along(pa, sub),
{
    assert forall|i: int| 0 <= i < sub.len() implies tuples_of(#[trigger] pb.current(sub[i])->Some_0)
        == tuples_of(pa.current(sub[i])->Some_0) by {
        let j = choose|j: int| 0 <= j < pages.len() && j != k && pages[j] == sub[i];
        assert(sub[i] != pages[k]);
    }
    lemma_along_frame(pa, pb, sub);
}

/// A tuple appended to page `k` of a chain, in place.
proof fn lemma_append_in_place(
    pa: BufferPool,
    pb: BufferPool,
    pages: Seq<PageId>,
    k: int,
    d0: Seq<u8>,
    d1: Seq<u8>,
    bytes: Seq<u8>,
)
    requires
        chain_witness(pa, pages),
        0 <= k < pages.len(),
        pa.current(pages[k]) == Some(d0),
        pb.current(pages[k]) == Some(d1),
        forall|x: PageId| x != pages[k] ==> #[trigger] pb.current(x) == pa.current(x),
        slotted_wf(d0) ==> slotted_wf(d1) && tuples_of(d1) == tuples_of(d0).push(bytes),
        next_page_of(d1) == next_page_of(d0),
    ensures
        appended_within(pa, pb, pages, k, bytes),
{
    assert(pa.current(pages[k]) is Some);
    assert forall|i: int| 0 <= i < pages.len() implies #[trigger] pb.current(pages[i]) is Some && slotted_wf(
        pb.current(pages[i])->Some_0,
    ) by {
        if i != k {
            assert(pages[i] != pages[k]);
            assert(pa.current(pages[i]) is Some);
        }
    }
    assert forall|i: int| 0 <= i < pages.len() - 1 implies next_page_of(#[trigger] pb.current(pages[i])->Some_0)
        == pages[i + 1] by {
        assert(pa.current(pages[i]) is Some);
        if i != k {
            assert(pages[i] != pages[k]);
        }
    }
    assert(pb.current(pages.last()) == pb.current(pages[pages.len() - 1]));
    if pages.len() - 1 != k {
        assert(pages[pages.len() - 1] != pages[k]);
    }
    let before = pages.take(k);
    let after = pages.skip(k + 1);
    assert forall|i: int| 0 <= i < before.len() implies exists|j: int| 0 <= j < pages.len() && j != k && pages[j] == #[trigger] before[i] by {
        assert(pages[i] == before[i]);
    }
    assert forall|i: int| 0 <= i < after.len() implies exists|j: int| 0 <= j < pages.len() && j != k && pages[j] == #[trigger] after[i] by {
        assert(pages[i + k + 1] == after[i]);
    }
    lemma_sub_frame(pa, pb, pages, before, k);
    lemma_sub_frame(pa, pb, pages, after, k);
}

/// A tuple placed on a fresh page linked after the tail of a chain.
proof fn lemma_new_tail(
    pa: BufferPool,
    pb: BufferPool,
    pages: Seq<PageId>,
    new_id: PageId,
    d0: Seq<u8>,
    dl: Seq<u8>,
    dn: Seq<u8>,
    bytes: Seq<u8>,
)
    requires
        pa.wf(),
        chain_witness(pa, pages),
        new_id == pa.next_id(),
        pa.current(pages.last()) == Some(d0),
        pb.current(pages.last()) == Some(dl),
        pb.current(new_id) == Some(dn),
        forall|x: PageId| x != new_id && x != pages.last() ==> #[trigger] pb.current(x) == pa.current(x),
        slotted_wf(dn),
        tuples_of(dn) == seq![bytes],
        next_page_of(dn) == NO_NEXT_PAGE,
        slotted_wf(dl),
        tuples_of(dl) == tuples_of(d0),
        next_page_of(dl) == new_id,
    ensures
        chain_ends_at(pb, pages.push(new_id), new_id),
        along(pb, pages.push(new_id)) == along(pa, pages).push(bytes),
{
    let n = pages.len() - 1;
    let grown = pages.push(new_id);
    lemma_chain_fits(pa, pages);
    assert(pages.last() == pages[n]);
    assert forall|k: int| 0 <= k < n implies #[trigger] pb.current(pages[k]) == pa.current(pages[k]) by {
        assert(pages[k] != pages[n]);
        assert(pages[k] < pa.next_id());
    }
    assert forall|k: int| 0 <= k < pages.len() implies tuples_of(#[trigger] pb.current(pages[k])->Some_0)
        == tuples_of(pa.current(pages[k])->Some_0) by {
        if k < n {
            assert(pb.current(pages[k]) == pa.current(pages[k]));
        }
    }
    lemma_along_frame(pa, pb, pages);
    lemma_along_push(pb, pages, new_id);
    assert(seq![bytes] =~= Seq::<Seq<u8>>::empty().push(bytes));
    assert(along(pa, pages) + seq![bytes] =~= along(pa, pages).push(bytes));
    assert(grown.no_duplicates()) by {
        assert forall|a: int, b: int| 0 <= a < grown.len() && 0 <= b < grown.len() && a != b implies grown[a] != grown[b] by {
            if a < pages.len() && b < pages.len() {
            } else if a < pages.len() {
                assert(pages[a] < pa.next_id());
            } else {
                assert(pages[b] < pa.next_id());
            }
        }
    }
    assert forall|k: int| 0 <= k < grown.len() implies #[trigger] pb.current(grown[k]) is Some && slotted_wf(
        pb.current(grown[k])->Some_0,
    ) by {
        if k < n {
            assert(grown[k] == pages[k]);
            assert(pb.current(pages[k]) == pa.current(pages[k]));
        } else if k == n {
            assert(grown[k] == pages[n]);
        }
    }
    assert forall|k: int| 0 <= k < grown.len() - 1 implies next_page_of(#[trigger] pb.current(grown[k])->Some_0)
        == grown[k + 1] by {
        if k < n {
            assert(grown[k] == pages[k]);
            assert(pb.current(pages[k]) == pa.current(pages[k]));
            assert(grown[k + 1] == pages[k + 1]);
        } else {
            assert(grown[k] == pages[n]);
        }
    }
}

/// Stores `last` as the table's tail hint.
fn set_last_page(tables: &mut Vec<(String, TableMetadata)>, idx: usize, last: PageId)
    requires
        idx < old(tables)@.len(),
    ensures
        final(tables)@.len() == old(tables)@.len(),
        forall|i: int|
            0 <= i < old(tables)@.len() && i != idx ==> #[trigger] final(tables)@[i] == old(tables)@[i],
        final(tables)@[idx as int].0 == old(tables)@[idx as int].0,
        final(tables)@[idx as int].1.schema == old(tables)@[idx as int].1.schema,
        final(tables)@[idx as int].1.first_page_id == old(tables)@[idx as int].1.first_page_id,
        final(tables)@[idx as int].1.last_page_id == last,
{
    let mut entry = tables.remove(idx);
    entry.1.last_page_id = last;
    tables.insert(idx, entry);
}

/// What CREATE TABLE guarantees.
pub open spec fn create_post(
    old_db: Database,
    new_db: Database,
    name: Seq<char>,
    columns: Seq<ColumnDef>,
    r: Result<String, String>,
) -> bool {
    let id = old_db.buffer_pool.next_id();
    &&& new_db.persistent == old_db.persistent
    &&& has_name(old_db.tables@, name) ==> r is Err && r->Err_0@ == table_msg(
        name,
        "' already exists"@,
    ) && new_db.tables == old_db.tables && new_db.buffer_pool == old_db.buffer_pool
    &&& !has_name(old_db.tables@, name) && id < u32::MAX ==> r is Ok
    &&& r is Ok ==> {
        let d = new_db.buffer_pool.current(id)->Some_0;
        &&& r->Ok_0@ == table_msg(name, "' created"@)
        &&& new_db.tables@.len() == old_db.tables@.len() + 1
        &&& new_db.tables@.drop_last() == old_db.tables@
        &&& new_db.tables@.last().0@ == name
        &&& new_db.tables@.last().1.schema@ == columns
        &&& new_db.tables@.last().1.first_page_id == id
        &&& new_db.tables@.last().1.last_page_id == id
        &&& new_db.buffer_pool.current(id) is Some
        &&& slotted_wf(d)
        &&& tuples_of(d) == Seq::<Seq<u8>>::empty()
        &&& next_page_of(d) == NO_NEXT_PAGE
        &&& forall|x: PageId|
            x != id ==> #[trigger] new_db.buffer_pool.current(x) == old_db.buffer_pool.current(x)
        &&& flushed(new_db.buffer_pool)
        &&& catalog_saved(new_db)
        &&& heap_of(new_db.buffer_pool, seq![id], id, id)
        &&& along(new_db.buffer_pool, seq![id]) == Seq::<Seq<u8>>::empty()
        &&& forall|q: Seq<PageId>|
            #[trigger] chain_witness(old_db.buffer_pool, q) ==> chain_witness(new_db.buffer_pool, q)
                && along(new_db.buffer_pool, q) == along(old_db.buffer_pool, q)
    }
}

fn handle_create_table(db: &mut Database, name: String, columns: Vec<ColumnDef>) -> (r: Result<
    String,
    String,
>)
    requires
        old(db).wf(),
    ensures
        final(db).wf(),
        create_post(*old(db), *final(db), name@, columns@, r),
{
    if db.has_table(&name) {
        let mut m = "Table '".to_string();
        m.append(name.as_str());
        m.append("' already exists");
        return Err(m);
    }
    let ghost id = db.buffer_pool.next_id();
    let ghost pool0 = db.buffer_pool;
    let (page_id, f) = match db.buffer_pool.create_page() {
        Ok(c) => c,
        Err(e) => {
            return Err(e);
        },
    };
    let mut scratch = SlottedPage::new(Page::new());
    db.buffer_pool.swap_page(f, &mut scratch.page);
    scratch.init();
    db.buffer_pool.swap_page(f, &mut scratch.page);
    let mut m = "Table '".to_string();
    m.append(name.as_str());
    m.append("' created");
    let ghost tables0 = db.tables@;
    let ghost name_view = name@;
    db.tables.push((name, TableMetadata { schema: columns, first_page_id: page_id, last_page_id: page_id }));
    proof {
        assert(db.tables@.drop_last() =~= tables0);
        assert forall|i: int, j: int|
            0 <= i < db.tables@.len() && 0 <= j < db.tables@.len() && i != j implies (#[trigger] db.tables@[i]).0@
            != (#[trigger] db.tables@[j]).0@ by {
            if i < tables0.len() && j < tables0.len() {
                assert(db.tables@[i] == tables0[i]);
                assert(db.tables@[j] == tables0[j]);
            } else if i < tables0.len() {
                assert(db.tables@[i] == tables0[i]);
            } else {
                assert(db.tables@[j] == tables0[j]);
            }
        }
    }
    let ghost pool1 = db.buffer_pool;
    let _ = db.buffer_pool.flush_all();
    db.save_catalog();
    proof {
        assert forall|x: PageId| x != id implies #[trigger] db.buffer_pool.current(x)
            == pool0.current(x) by {
            assert(pool1.current(x) == pool0.current(x));
        }
        let p = db.buffer_pool;
        let one = seq![id];
        assert(p.current(id) == pool1.current(id));
        assert(one.last() == id && one[0] == id);
        assert(one.no_duplicates());
        assert(chain_witness(p, one));
        assert(one.drop_first() =~= Seq::<PageId>::empty());
        assert(along(p, one.drop_first()) =~= Seq::<Seq<u8>>::empty());
        assert(along(p, one) =~= Seq::<Seq<u8>>::empty());
        assert forall|q: Seq<PageId>| #[trigger] chain_witness(pool0, q) implies chain_witness(p, q)
            && along(p, q) == along(pool0, q) by {
            lemma_chain_fits(pool0, q);
            assert forall|k: int| 0 <= k < q.len() implies #[trigger] p.current(q[k]) == pool0.current(q[k]) by {
                assert(q[k] < pool0.next_id());
            }
            lemma_witness_frame(pool0, p, q);
        }
    }
    Ok(m)
}

proof fn lemma_grows_refl(p: BufferPool, first: PageId, last: PageId)
    ensures
        heap_grows(p, p, first, last, last, Seq::empty()),
{
    reveal(heap_grows);
    assert forall|pages: Seq<PageId>| #[trigger] heap_of(p, pages, first, last) implies exists|g: Seq<PageId>|
        #[trigger] heap_of(p, g, first, last) && along(p, g) == along(p, pages) + Seq::<Seq<u8>>::empty() by {
        assert(along(p, pages) + Seq::<Seq<u8>>::empty() =~= along(p, pages));
        assert(heap_of(p, pages, first, last));
    }
}

proof fn lemma_heap_kept_refl(p: BufferPool, first: PageId, last: PageId)
    ensures
        heap_kept(p, p, first, last, last),
{
    reveal(heap_kept);
    assert forall|pages: Seq<PageId>| #[trigger] heap_of(p, pages, first, last) implies exists|g: Seq<PageId>|
        #[trigger] heap_of(p, g, first, last) by {
        assert(heap_of(p, pages, first, last));
    }
}

proof fn lemma_grows_kept(pa: BufferPool, pb: BufferPool, first: PageId, last0: PageId, last1: PageId, added: Seq<Seq<u8>>)
    requires
        heap_grows(pa, pb, first, last0, last1, added),
    ensures
        heap_kept(pa, pb, first, last0, last1),
{
    reveal(heap_kept);
    reveal(heap_grows);
    assert forall|pages: Seq<PageId>| #[trigger] heap_of(pa, pages, first, last0) implies exists|g: Seq<PageId>|
        #[trigger] heap_of(pb, g, first, last1) by {
        let g = choose|g: Seq<PageId>| #[trigger] heap_of(pb, g, first, last1) && along(pb, g) == along(pa, pages) + added;
        assert(heap_of(pb, g, first, last1));
    }
}

/// Growth survives a change that keeps every page's content.
proof fn lemma_grows_frame(
    pa: BufferPool,
    pb: BufferPool,
    pc: BufferPool,
    first: PageId,
    last0: PageId,
    last1: PageId,
    added: Seq<Seq<u8>>,
)
    requires
        heap_grows(pa, pb, first, last0, last1, added),
        forall|x: PageId| #[trigger] pc.current(x) == pb.current(x),
    ensures
        heap_grows(pa, pc, first, last0, last1, added),
{
    reveal(heap_grows);
    assert forall|pages: Seq<PageId>| #[trigger] heap_of(pa, pages, first, last0) implies exists|g: Seq<PageId>|
        #[trigger] heap_of(pc, g, first, last1) && along(pc, g) == along(pa, pages) + added by {
        let g = choose|g: Seq<PageId>| #[trigger] heap_of(pb, g, first, last1) && along(pb, g) == along(pa, pages) + added;
        lemma_witness_frame(pb, pc, g);
        assert(heap_of(pc, g, first, last1));
    }
}

/// One more tuple appended by `insert_tuple` extends the growth of a heap.
proof fn lemma_insert_step(
    pa: BufferPool,
    pb: BufferPool,
    pc: BufferPool,
    first: PageId,
    last0: PageId,
    last1: PageId,
    added: Seq<Seq<u8>>,
    bytes: Seq<u8>,
    r: Result<PageId, String>,
)
    requires
        heap_grows(pa, pb, first, last0, last1, added),
        forall|pages: Seq<PageId>|
            #![trigger chain_ends_at(pb, pages, last1)]
            chain_ends_at(pb, pages, last1) ==> {
                &&& r is Ok ==> {
                    let grown = if r->Ok_0 == last1 {
                        pages
                    } else {
                        pages.push(r->Ok_0)
                    };
                    &&& chain_ends_at(pc, grown, r->Ok_0)
                    &&& along(pc, grown) == along(pb, pages).push(bytes)
                }
                &&& r is Err ==> chain_witness(pc, pages) && along(pc, pages) == along(pb, pages)
            },
    ensures
        r is Ok ==> heap_grows(pa, pc, first, last0, r->Ok_0, added.push(bytes)),
        r is Err ==> heap_grows(pa, pc, first, last0, last1, added),
{
    reveal(heap_grows);
    if r is Ok {
        assert forall|pages: Seq<PageId>| #[trigger] heap_of(pa, pages, first, last0) implies exists|g: Seq<PageId>|
            #[trigger] heap_of(pc, g, first, r->Ok_0) && along(pc, g) == along(pa, pages) + added.push(bytes) by {
            let g = choose|g: Seq<PageId>| #[trigger] heap_of(pb, g, first, last1) && along(pb, g) == along(pa, pages) + added;
            assert(chain_ends_at(pb, g, last1));
            let grown = if r->Ok_0 == last1 {
                g
            } else {
                g.push(r->Ok_0)
            };
            assert(grown[0] == g[0]);
            assert(heap_of(pc, grown, first, r->Ok_0));
            assert(along(pc, grown) =~= along(pa, pages) + added.push(bytes));
        }
    } else {
        assert forall|pages: Seq<PageId>| #[trigger] heap_of(pa, pages, first, last0) implies exists|g: Seq<PageId>|
            #[trigger] heap_of(pc, g, first, last1) && along(pc, g) == along(pa, pages) + added by {
            let g = choose|g: Seq<PageId>| #[trigger] heap_of(pb, g, first, last1) && along(pb, g) == along(pa, pages) + added;
            assert(chain_ends_at(pb, g, last1));
            assert(heap_of(pc, g, first, last1));
        }
    }
}

/// `pages` is the heap of a table: a chain from `first` that ends at `last`.
pub open spec fn heap_of(pool: BufferPool, pages: Seq<PageId>, first: PageId, last: PageId) -> bool {
    chain_ends_at(pool, pages, last) && pages[0] == first
}

/// A heap from `first` to `last0` in `pa` is, in `pb`, a heap from `first`
/// to `last1`.
#[verifier::opaque]
pub open spec fn heap_kept(pa: BufferPool, pb: BufferPool, first: PageId, last0: PageId, last1: PageId) -> bool {
    forall|pages: Seq<PageId>|
        #[trigger] heap_of(pa, pages, first, last0) ==> exists|g: Seq<PageId>|
            #[trigger] heap_of(pb, g, first, last1)
}

/// As `heap_kept`, and the payloads of the heap grew by `added`, at its end.
#[verifier::opaque]
pub open spec fn heap_grows(
    pa: BufferPool,
    pb: BufferPool,
    first: PageId,
    last0: PageId,
    last1: PageId,
    added: Seq<Seq<u8>>,
) -> bool {
    forall|pages: Seq<PageId>|
        #[trigger] heap_of(pa, pages, first, last0) ==> exists|g: Seq<PageId>|
            #[trigger] heap_of(pb, g, first, last1) && along(pb, g) == along(pa, pages) + added
}

/// Growth composes: a heap that grew by `a` and then by `b` grew by `a`
/// followed by `b`, so successive inserts keep their order.
pub proof fn lemma_growth_composes(
    pa: BufferPool,
    pb: BufferPool,
    pc: BufferPool,
    first: PageId,
    l0: PageId,
    l1: PageId,
    l2: PageId,
    a: Seq<Seq<u8>>,
    b: Seq<Seq<u8>>,
)
    requires
        heap_grows(pa, pb, first, l0, l1, a),
        heap_grows(pb, pc, first, l1, l2, b),
    ensures
        heap_grows(pa, pc, first, l0, l2, a + b),
{
    reveal(heap_grows);
    assert forall|pages: Seq<PageId>| #[trigger] heap_of(pa, pages, first, l0) implies exists|g: Seq<PageId>|
        #[trigger] heap_of(pc, g, first, l2) && along(pc, g) == along(pa, pages) + (a + b) by {
        let g1 = choose|g: Seq<PageId>| #[trigger] heap_of(pb, g, first, l1) && along(pb, g) == along(pa, pages) + a;
        let g2 = choose|g: Seq<PageId>| #[trigger] heap_of(pc, g, first, l2) && along(pc, g) == along(pb, g1) + b;
        assert(along(pc, g2) =~= along(pa, pages) + (a + b));
    }
}

/// After a heap grew by some payloads, the scan that `SELECT *` performs
/// reads the payloads it held before, then the new ones, in the order they
/// were appended.
pub proof fn lemma_scan_after_growth(
    pa: BufferPool,
    pb: BufferPool,
    first: PageId,
    last0: PageId,
    last1: PageId,
    added: Seq<Seq<u8>>,
    pages: Seq<PageId>,
)
    requires
        pb.wf(),
        heap_grows(pa, pb, first, last0, last1, added),
        heap_of(pa, pages, first, last0),
    ensures
        chain_tuples(pb, first, chain_fuel(pb)) == Some(along(pa, pages) + added),
{
    reveal(heap_grows);
    let g = choose|g: Seq<PageId>| #[trigger] heap_of(pb, g, first, last1) && along(pb, g) == along(pa, pages) + added;
    lemma_scan_order(pb, g);
}

/// Every expression of the row converts, and every text fits the codec.
pub open spec fn row_converts(exprs: Seq<Expr>) -> bool {
    forall|k: int|
        0 <= k < exprs.len() ==> #[trigger] expr_value(exprs[k]) is Ok && (expr_value(exprs[k])->Ok_0 is Text
            ==> encode_utf8(expr_value(exprs[k])->Ok_0->Text_0).len() <= u32::MAX)
}

/// Every row converts and its encoding fits an empty page.
pub open spec fn rows_fit(rows: Seq<Vec<Expr>>) -> bool {
    forall|j: int|
        0 <= j < rows.len() ==> row_converts(#[trigger] rows[j]@) && encode_values(
            row_values(rows[j]@),
        ).len() <= MAX_TUPLE
}

proof fn lemma_grows_exists(
    pa: BufferPool,
    pb: BufferPool,
    first: PageId,
    last0: PageId,
    last1: PageId,
    added: Seq<Seq<u8>>,
    pages: Seq<PageId>,
)
    requires
        heap_grows(pa, pb, first, last0, last1, added),
        heap_of(pa, pages, first, last0),
    ensures
        exists|g: Seq<PageId>| chain_ends_at(pb, g, last1),
{
    reveal(heap_grows);
    let g = choose|g: Seq<PageId>| #[trigger] heap_of(pb, g, first, last1) && along(pb, g) == along(pa, pages) + added;
    assert(chain_ends_at(pb, g, last1));
}

/// A chain that avoids a table's tail survives one more append to that table.
proof fn lemma_other_chains_step(
    pa: BufferPool,
    pb: BufferPool,
    pc: BufferPool,
    first: PageId,
    last0: PageId,
    last1: PageId,
    added: Seq<Seq<u8>>,
    r: Result<PageId, String>,
)
    requires
        pa.wf(),
        pb.next_id() >= pa.next_id(),
        heap_grows(pa, pb, first, last0, last1, added),
        (exists|pages: Seq<PageId>| heap_of(pa, pages, first, last0)) ==> last1 == last0 || last1
            >= pa.next_id(),
        forall|q: Seq<PageId>|
            (exists|pages: Seq<PageId>| heap_of(pa, pages, first, last0)) && #[trigger] chain_witness(pa, q)
                && !q.contains(last0) ==> chain_witness(pb, q) && along(pb, q) == along(pa, q),
        forall|pages: Seq<PageId>, other: Seq<PageId>|
            #![trigger chain_ends_at(pb, pages, last1), chain_witness(pb, other)]
            chain_ends_at(pb, pages, last1) && chain_witness(pb, other) && !other.contains(last1)
                ==> chain_witness(pc, other) && along(pc, other) == along(pb, other),
        (exists|pages: Seq<PageId>| chain_ends_at(pb, pages, last1)) && r is Ok ==> r->Ok_0 == last1
            || r->Ok_0 == pb.next_id(),
    ensures
        forall|q: Seq<PageId>|
            (exists|pages: Seq<PageId>| heap_of(pa, pages, first, last0)) && #[trigger] chain_witness(pa, q)
                && !q.contains(last0) ==> chain_witness(pc, q) && along(pc, q) == along(pa, q),
        (exists|pages: Seq<PageId>| heap_of(pa, pages, first, last0)) && r is Ok ==> r->Ok_0 == last0
            || r->Ok_0 >= pa.next_id(),
{
    if exists|pages: Seq<PageId>| heap_of(pa, pages, first, last0) {
        let pages = choose|pages: Seq<PageId>| heap_of(pa, pages, first, last0);
        lemma_grows_exists(pa, pb, first, last0, last1, added, pages);
        let g = choose|g: Seq<PageId>| chain_ends_at(pb, g, last1);
        assert forall|q: Seq<PageId>|
            #[trigger] chain_witness(pa, q) && !q.contains(last0) implies chain_witness(pc, q) && along(pc, q)
            == along(pa, q) by {
            assert(chain_witness(pb, q));
            assert(!q.contains(last1)) by {
                if last1 != last0 {
                    lemma_chain_fits(pa, q);
                    if q.contains(last1) {
                        let k = choose|k: int| 0 <= k < q.len() && q[k] == last1;
                        assert(q[k] < pa.next_id());
                    }
                }
            }
            assert(chain_ends_at(pb, g, last1) && chain_witness(pb, q));
        }
    }
}

/// The values of a VALUES row whose expressions all convert.
pub open spec fn row_values(exprs: Seq<Expr>) -> Seq<ValueModel> {
    Seq::new(exprs.len(), |k: int| expr_value(exprs[k])->Ok_0)
}

/// The encodings of the first `n` VALUES rows.
pub open spec fn encoded_rows(rows: Seq<Vec<Expr>>, n: int) -> Seq<Seq<u8>> {
    Seq::new(n as nat, |j: int| encode_values(row_values(rows[j]@)))
}

/// What INSERT guarantees.
pub open spec fn insert_post(
    old_db: Database,
    new_db: Database,
    table: Seq<char>,
    source: Option<SetExpr>,
    r: Result<String, String>,
) -> bool {
    &&& new_db.tables@.len() == old_db.tables@.len()
    &&& forall|i: int|
        0 <= i < old_db.tables@.len() ==> (#[trigger] new_db.tables@[i]).0 == old_db.tables@[i].0
            && new_db.tables@[i].1.schema == old_db.tables@[i].1.schema
            && new_db.tables@[i].1.first_page_id == old_db.tables@[i].1.first_page_id
    &&& new_db.persistent == old_db.persistent
    &&& !has_name(old_db.tables@, table) ==> r is Err && r->Err_0@ == table_msg(
        table,
        "' does not exist"@,
    ) && new_db.tables == old_db.tables && new_db.buffer_pool == old_db.buffer_pool
    &&& r is Ok ==> flushed(new_db.buffer_pool) && catalog_saved(new_db)
    &&& has_name(old_db.tables@, table) && source is None ==> r is Err && r->Err_0@
        == "INSERT requires VALUES"@
    &&& has_name(old_db.tables@, table) && source is Some && !(source->Some_0 is Values) ==> r is Err
        && r->Err_0@ == "Only INSERT ... VALUES is supported"@
    &&& r is Ok ==> source is Some && source->Some_0 is Values && r->Ok_0@ == "Inserted "@
        + decimal(source->Some_0->Values_0@.len()) + " row(s)"@
    &&& forall|i: int|
        0 <= i < old_db.tables@.len() && (#[trigger] old_db.tables@[i]).0@ == table ==> heap_kept(
            old_db.buffer_pool,
            new_db.buffer_pool,
            old_db.tables@[i].1.first_page_id,
            old_db.tables@[i].1.last_page_id,
            new_db.tables@[i].1.last_page_id,
        )
    &&& forall|i: int|
        0 <= i < old_db.tables@.len() && (#[trigger] old_db.tables@[i]).0@ == table && r is Ok
            ==> heap_grows(
            old_db.buffer_pool,
            new_db.buffer_pool,
            old_db.tables@[i].1.first_page_id,
            old_db.tables@[i].1.last_page_id,
            new_db.tables@[i].1.last_page_id,
            encoded_rows(source->Some_0->Values_0@, source->Some_0->Values_0@.len() as int),
        )
    &&& forall|i: int|
        0 <= i < old_db.tables@.len() && (#[trigger] old_db.tables@[i]).0@ == table && source is Some
            && source->Some_0 is Values && rows_fit(source->Some_0->Values_0@)
            && old_db.buffer_pool.next_id() + source->Some_0->Values_0@.len() < u32::MAX && (exists|
            pages: Seq<PageId>,
        |
            heap_of(
                old_db.buffer_pool,
                pages,
                old_db.tables@[i].1.first_page_id,
                old_db.tables@[i].1.last_page_id,
            )) ==> r is Ok
    &&& forall|i: int, q: Seq<PageId>|
        0 <= i < old_db.tables@.len() && (#[trigger] old_db.tables@[i]).0@ == table && (exists|
            pages: Seq<PageId>,
        |
            heap_of(
                old_db.buffer_pool,
                pages,
                old_db.tables@[i].1.first_page_id,
                old_db.tables@[i].1.last_page_id,
            )) && #[trigger] chain_witness(old_db.buffer_pool, q) && !q.contains(
            old_db.tables@[i].1.last_page_id,
        ) ==> chain_witness(new_db.buffer_pool, q) && along(new_db.buffer_pool, q) == along(
            old_db.buffer_pool,
            q,
        )
}

/// Converts one VALUES row, failing on the first expression that does not
/// convert or on a text too long for the codec.
fn convert_row(exprs: &Vec<Expr>) -> (r: Result<Row, String>)
    ensures
        r is Ok ==> encodable(r->Ok_0@) && r->Ok_0@.len() == exprs@.len() && forall|j: int|
            0 <= j < exprs@.len() ==> #[trigger] r->Ok_0@[j] == expr_value(exprs@[j])->Ok_0,
        r is Ok ==> r->Ok_0@ == row_values(exprs@),
        r is Ok <==> row_converts(exprs@),
{
    let mut values: Vec<Value> = Vec::new();
    let mut j: usize = 0;
    while j < exprs.len()
        invariant
            0 <= j <= exprs@.len(),
            values@.len() == j,
            forall|k: int| 0 <= k < j ==> #[trigger] expr_value(exprs@[k]) is Ok && (expr_value(exprs@[k])->Ok_0 is Text
                ==> encode_utf8(expr_value(exprs@[k])->Ok_0->Text_0).len() <= u32::MAX),
            encodable(Row { values }@),
            forall|k: int| 0 <= k < j ==> #[trigger] values@[k]@ == expr_value(exprs@[k])->Ok_0,
        decreases exprs@.len() - j,
    {
        let v = match expr_to_value(&exprs[j]) {
            Ok(v) => v,
            Err(e) => {
                return Err(e);
            },
        };
        let fits = match &v {
            Value::Text(s) => s.as_str().as_bytes().len() <= u32::MAX as usize,
            _ => true,
        };
        if !fits {
            return Err("Text value too long".to_string());
        }
        assert(v@ is Text ==> encode_utf8(v@->Text_0).len() <= u32::MAX);
        let ghost before = values@;
        let ghost before_vec = values;
        let ghost v_ghost = v;
        values.push(v);
        proof {
            assert forall|k: int| 0 <= k < values@.len() implies (#[trigger] Row { values }@[k] is Text
                ==> encode_utf8(Row { values }@[k]->Text_0).len() <= u32::MAX) by {
                assert(Row { values }@[k] == values@[k]@);
                if k < j {
                    assert(values@[k] == before[k]);
                    assert(Row { values: before_vec }@[k] == before[k]@);
                } else {
                    assert(values@[k] == v_ghost);
                }
            }
        }
        j += 1;
    }
    let r = Row { values };
    assert forall|k: int| 0 <= k < exprs@.len() implies #[trigger] r@[k] == expr_value(exprs@[k])->Ok_0 by {
        assert(r@[k] == r.values@[k]@);
    }
    assert(r@ =~= row_values(exprs@));
    Ok(r)
}

/// Appends the VALUES rows to table `idx`, keeping its tail hint on the page
/// that holds the last row stored. Stops at the first row that fails.
fn append_rows(db: &mut Database, idx: usize, rows: &Vec<Vec<Expr>>) -> (r: Result<(), String>)
    requires
        old(db).wf(),
        idx < old(db).tables@.len(),
    ensures
        final(db).wf(),
        final(db).tables@.len() == old(db).tables@.len(),
        forall|k: int|
            0 <= k < old(db).tables@.len() ==> (#[trigger] final(db).tables@[k]).0 == old(db).tables@[k].0
                && final(db).tables@[k].1.schema == old(db).tables@[k].1.schema
                && final(db).tables@[k].1.first_page_id == old(db).tables@[k].1.first_page_id,
        forall|k: int| 0 <= k < old(db).tables@.len() && k != idx ==> #[trigger] final(db).tables@[k] == old(db).tables@[k],
        heap_kept(
            old(db).buffer_pool,
            final(db).buffer_pool,
            old(db).tables@[idx as int].1.first_page_id,
            old(db).tables@[idx as int].1.last_page_id,
            final(db).tables@[idx as int].1.last_page_id,
        ),
        r is Ok ==> heap_grows(
            old(db).buffer_pool,
            final(db).buffer_pool,
            old(db).tables@[idx as int].1.first_page_id,
            old(db).tables@[idx as int].1.last_page_id,
            final(db).tables@[idx as int].1.last_page_id,
            encoded_rows(rows@, rows@.len() as int),
        ),
        final(db).persistent == old(db).persistent,
        r is Ok ==> flushed(final(db).buffer_pool) && catalog_saved(*final(db)),
        (exists|pages: Seq<PageId>|
            heap_of(
                old(db).buffer_pool,
                pages,
                old(db).tables@[idx as int].1.first_page_id,
                old(db).tables@[idx as int].1.last_page_id,
            )) && rows_fit(rows@) && old(db).buffer_pool.next_id() + rows@.len() < u32::MAX ==> r is Ok,
        forall|q: Seq<PageId>|
            (exists|pages: Seq<PageId>|
                heap_of(
                    old(db).buffer_pool,
                    pages,
                    old(db).tables@[idx as int].1.first_page_id,
                    old(db).tables@[idx as int].1.last_page_id,
                )) && #[trigger] chain_witness(old(db).buffer_pool, q) && !q.contains(
                old(db).tables@[idx as int].1.last_page_id,
            ) ==> chain_witness(final(db).buffer_pool, q) && along(final(db).buffer_pool, q) == along(
                old(db).buffer_pool,
                q,
            ),
{
    let ghost tables0 = db.tables@;
    let ghost pool0 = db.buffer_pool;
    let ghost first = tables0[idx as int].1.first_page_id;
    let ghost last0 = tables0[idx as int].1.last_page_id;
    let mut last = db.tables[idx].1.last_page_id;
    let mut i: usize = 0;
    proof {
        assert(encoded_rows(rows@, 0) =~= Seq::<Seq<u8>>::empty());
        lemma_grows_refl(pool0, first, last0);
    }
    while i < rows.len()
        invariant
            pool0.wf(),
            0 <= i <= rows@.len(),
            idx < db.tables@.len(),
            db.wf(),
            tables0 == old(db).tables@,
            pool0 == old(db).buffer_pool,
            db.persistent == old(db).persistent,
            first == tables0[idx as int].1.first_page_id,
            last0 == tables0[idx as int].1.last_page_id,
            last == db.tables@[idx as int].1.last_page_id,
            db.tables@.len() == tables0.len(),
            forall|k: int|
                0 <= k < tables0.len() ==> (#[trigger] db.tables@[k]).0 == tables0[k].0
                    && db.tables@[k].1.schema == tables0[k].1.schema
                    && db.tables@[k].1.first_page_id == tables0[k].1.first_page_id,
            forall|k: int| 0 <= k < tables0.len() && k != idx ==> #[trigger] db.tables@[k] == tables0[k],
            heap_grows(pool0, db.buffer_pool, first, last0, last, encoded_rows(rows@, i as int)),
            db.buffer_pool.next_id() <= pool0.next_id() + i,
            db.buffer_pool.next_id() >= pool0.next_id(),
            (exists|pages: Seq<PageId>| heap_of(pool0, pages, first, last0)) ==> last == last0 || last
                >= pool0.next_id(),
            forall|q: Seq<PageId>|
                (exists|pages: Seq<PageId>| heap_of(pool0, pages, first, last0)) && #[trigger] chain_witness(pool0, q)
                    && !q.contains(last0) ==> chain_witness(db.buffer_pool, q) && along(db.buffer_pool, q)
                    == along(pool0, q),
        decreases rows@.len() - i,
    {
        let row = match convert_row(&rows[i]) {
            Ok(row) => row,
            Err(e) => {
                proof {
                    lemma_grows_kept(pool0, db.buffer_pool, first, last0, last, encoded_rows(rows@, i as int));
                }
                return Err(e);
            },
        };
        let bytes = row.to_bytes();
        let ghost pool_i = db.buffer_pool;
        let ghost last_i = last;
        proof {
            if exists|pages: Seq<PageId>| heap_of(pool0, pages, first, last0) {
                let pages = choose|pages: Seq<PageId>| heap_of(pool0, pages, first, last0);
                lemma_grows_exists(pool0, pool_i, first, last0, last, encoded_rows(rows@, i as int), pages);
            }
        }
        let step = insert_tuple(&mut db.buffer_pool, last, bytes.as_slice());
        proof {
            lemma_other_chains_step(pool0, pool_i, db.buffer_pool, first, last0, last_i, encoded_rows(rows@, i as int), step);
            lemma_insert_step(pool0, pool_i, db.buffer_pool, first, last0, last_i, encoded_rows(rows@, i as int), bytes@, step);
        }
        last = match step {
            Ok(p) => p,
            Err(e) => {
                proof {
                    lemma_grows_kept(pool0, db.buffer_pool, first, last0, last, encoded_rows(rows@, i as int));
                }
                return Err(e);
            },
        };
        set_last_page(&mut db.tables, idx, last);
        proof {
            assert forall|a: int, b: int|
                0 <= a < db.tables@.len() && 0 <= b < db.tables@.len() && a != b implies (#[trigger] db.tables@[a]).0@
                != (#[trigger] db.tables@[b]).0@ by {
                assert(db.tables@[a].0 == tables0[a].0);
                assert(db.tables@[b].0 == tables0[b].0);
            }
            assert(bytes@ == encode_values(row_values(rows@[i as int]@)));
            assert(encoded_rows(rows@, i as int).push(bytes@) =~= encoded_rows(rows@, i + 1));
        }
        i += 1;
    }
    let ghost before_flush = db.buffer_pool;
    let _ = db.buffer_pool.flush_all();
    proof {
        lemma_grows_frame(pool0, before_flush, db.buffer_pool, first, last0, last, encoded_rows(rows@, i as int));
        lemma_grows_kept(pool0, db.buffer_pool, first, last0, last, encoded_rows(rows@, i as int));
        assert forall|q: Seq<PageId>|
            (exists|pages: Seq<PageId>| heap_of(pool0, pages, first, last0)) && #[trigger] chain_witness(pool0, q)
                && !q.contains(last0) implies chain_witness(db.buffer_pool, q) && along(db.buffer_pool, q)
                == along(pool0, q) by {
            assert(chain_witness(before_flush, q));
            lemma_witness_frame(before_flush, db.buffer_pool, q);
        }
    }
    db.save_catalog();
    Ok(())
}

fn handle_insert(db: &mut Database, table: String, source: Option<SetExpr>) -> (r: Result<
    String,
    String,
>)
    requires
        old(db).wf(),
    ensures
        final(db).wf(),
        insert_post(*old(db), *final(db), table@, source, r),
{
    let idx = match db.find_table(&table) {
        Some(i) => i,
        None => {
            let mut m = "Table '".to_string();
            m.append(table.as_str());
            m.append("' does not exist");
            return Err(m);
        },
    };
    assert(has_name(db.tables@, table@));
    proof {
        assert forall|i: int| 0 <= i < db.tables@.len() && (#[trigger] db.tables@[i]).0@ == table@ implies i == idx by {
            if i != idx {
                assert(db.tables@[i].0@ != db.tables@[idx as int].0@);
            }
        }
        lemma_heap_kept_refl(db.buffer_pool, db.tables@[idx as int].1.first_page_id, db.tables@[idx as int].1.last_page_id);
    }
    let rows = match source {
        None => {
            return Err("INSERT requires VALUES".to_string());
        },
        Some(SetExpr::Values(rows)) => rows,
        Some(_) => {
            return Err("Only INSERT ... VALUES is supported".to_string());
        },
    };
    let ghost tables0 = db.tables@;
    let ghost pool0 = db.buffer_pool;
    match append_rows(db, idx, &rows) {
        Ok(()) => {},
        Err(e) => {
            return Err(e);
        },
    }
    proof {
        assert forall|k: int| 0 <= k < tables0.len() && (#[trigger] tables0[k]).0@ == table@ implies k == idx by {
            if k != idx {
                assert(tables0[k].0@ != tables0[idx as int].0@);
            }
        }
    }
    let mut m = "Inserted ".to_string();
    m.append(u64_text(rows.len() as u64).as_str());
    m.append(" row(s)");
    Ok(m)
}

/// What SELECT guarantees.
pub open spec fn query_post(
    old_db: Database,
    new_db: Database,
    body: SetExpr,
    r: Result<String, String>,
) -> bool {
    &&& new_db.tables == old_db.tables
    &&& forall|x: PageId| #[trigger] new_db.buffer_pool.current(x) == old_db.buffer_pool.current(x)
    &&& query_source(body) is Err ==> r is Err && r->Err_0@ == query_source(body)->Err_0
    &&& query_source(body) is Ok && !has_name(old_db.tables@, query_source(body)->Ok_0) ==> r is Err
        && r->Err_0@ == table_msg(query_source(body)->Ok_0, "' does not exist"@)
    &&& query_source(body) is Ok && has_name(old_db.tables@, query_source(body)->Ok_0)
        && !is_select_star(body) ==> r is Err && r->Err_0@ == "Only SELECT * is supported for now"@
    &&& forall|i: int|
        0 <= i < old_db.tables@.len() && query_source(body) is Ok && (#[trigger] old_db.tables@[i]).0@
            == query_source(body)->Ok_0 && is_select_star(body) ==> {
            let meta = old_db.tables@[i].1;
            let ts = chain_tuples(
                old_db.buffer_pool,
                meta.first_page_id,
                chain_fuel(old_db.buffer_pool),
            );
            &&& r is Ok <==> (ts is Some && decode_all(ts->Some_0) is Some)
            &&& r is Ok ==> r->Ok_0@ == select_text(
                column_names(meta.schema@),
                decode_all(ts->Some_0)->Some_0,
            )
        }
}

/// Appends the header of the output: column names, then the hyphen line.
fn append_header(out: &mut String, schema: &Vec<ColumnDef>)
    ensures
        final(out)@ == old(out)@ + header_text(column_names(schema@)),
{
    let mut names: Vec<String> = Vec::new();
    let mut i: usize = 0;
    while i < schema.len()
        invariant
            0 <= i <= schema@.len(),
            names@.len() == i,
            forall|k: int| 0 <= k < i ==> #[trigger] names@[k]@ == schema@[k].name@,
        decreases schema@.len() - i,
    {
        names.push(schema[i].name.clone());
        i += 1;
    }
    proof {
        reveal_strlit("\n");
        reveal_strlit("-");
    }
    append_joined(out, &names);
    assert(Seq::new(names@.len(), |i: int| names@[i]@) =~= column_names(schema@));
    out.append("\n");
    let ghost b = out@;
    proof {
        reveal_strlit("----------");
        assert("----------"@ =~= Seq::new(10, |i: int| '-'));
    }
    let mut k: usize = 0;
    while k < schema.len()
        invariant
            0 <= k <= schema@.len(),
            "----------"@ == Seq::new(10, |i: int| '-'),
            out@ == b + Seq::new(10 * k as nat, |i: int| '-'),
        decreases schema@.len() - k,
    {
        out.append("----------");
        k += 1;
        assert(out@ =~= b + Seq::new(10 * k as nat, |i: int| '-'));
    }
    out.append("\n");
}

fn handle_query(db: &mut Database, body: SetExpr) -> (r: Result<String, String>)
    requires
        old(db).wf(),
    ensures
        final(db).wf(),
        query_post(*old(db), *final(db), body, r),
{
    let (projection, from) = match body {
        SetExpr::Select { projection, from } => (projection, from),
        _ => {
            return Err("Only SELECT is supported".to_string());
        },
    };
    if from.len() == 0 {
        return Err("SELECT requires a FROM clause".to_string());
    }
    let table_name = match &from[0] {
        TableFactor::Table(name) => name,
        TableFactor::Other => {
            return Err("Only simple table references are supported".to_string());
        },
    };
    let idx = match db.find_table(table_name) {
        Some(i) => i,
        None => {
            let mut m = "Table '".to_string();
            m.append(table_name.as_str());
            m.append("' does not exist");
            return Err(m);
        },
    };
    let is_star = projection.len() == 1 && match &projection[0] {
        SelectItem::Wildcard => true,
        SelectItem::Other => false,
    };
    if !is_star {
        return Err("Only SELECT * is supported for now".to_string());
    }
    let first = db.tables[idx].1.first_page_id;
    let mut output = String::new();
    append_header(&mut output, &db.tables[idx].1.schema);
    let count = match scan_chain(&mut db.buffer_pool, first, &mut output) {
        Ok(c) => c,
        Err(e) => {
            return Err(e);
        },
    };
    output.append("(");
    output.append(u64_text(count).as_str());
    output.append(" rows)");
    Ok(output)
}

/// Runs one statement: CREATE TABLE, INSERT ... VALUES or SELECT *; any
/// other statement is an error.
pub fn execute(db: &mut Database, stmt: Statement) -> (r: Result<String, String>)
    requires
        old(db).wf(),
    ensures
        final(db).wf(),
        match stmt {
            Statement::CreateTable { name, columns } => create_post(
                *old(db),
                *final(db),
                name@,
                columns@,
                r,
            ),
            Statement::Insert { table, source } => insert_post(*old(db), *final(db), table@, source, r),
            Statement::Query(body) => query_post(*old(db), *final(db), body, r),
            Statement::Other => r is Err && r->Err_0@ == "Unsupported statement"@ && *final(db)
                == *old(db),
        },
{
    match stmt {
        Statement::CreateTable { name, columns } => handle_create_table(db, name, columns),
        Statement::Insert { table, source } => handle_insert(db, table, source),
        Statement::Query(body) => handle_query(db, body),
        Statement::Other => Err("Unsupported statement".to_string()),
    }
}

} // verus!
