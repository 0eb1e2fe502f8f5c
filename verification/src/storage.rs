//! Storage engine: the table catalog, the per-table append-only row store of
//! fixed-stride rows, and the global value dictionary, forming one storage
//! state. Each row is a concatenation of five-character interned codes, one
//! per column, with no delimiters.
use vstd::prelude::*;

use crate::dict::{
    find_id, get_value, lemma_find_id_stable, lemma_find_id_stable_ext, lemma_get_value_stable,
    lemma_prefix_push, wf_id, DictEntry, Dictionary, ID_SPACE,
};
use crate::strutil::{comma_join, comma_join_spec, comma_split, comma_split_spec};

verus! {

/// One table: its catalog registration (the ordered column names, absent
/// while the table is known only from its files), the schema sidecar line as
/// stored on disk, and the row-store contents as a flat list of cell codes.
pub struct Table {
    pub name: String,
    pub columns: Option<Vec<String>>,
    pub sidecar: Option<String>,
    pub cells: Vec<String>,
}

impl Table {
    /// Every cell code has the fixed width of five characters, so the
    /// row-store layout keeps its stride.
    pub open spec fn wf(&self) -> bool {
        forall|k: int| 0 <= k < self.cells@.len() ==> self.cells@[k]@.len() == 5
    }
}

/// The position of the first table carrying `name`, at or after position `i`.
pub open spec fn find_table_from(s: Seq<Table>, name: Seq<char>, i: int) -> Option<int>
    decreases s.len() - i,
{
    if i < 0 || i >= s.len() {
        None
    } else if s[i].name@ == name {
        Some(i)
    } else {
        find_table_from(s, name, i + 1)
    }
}

/// The position of the table carrying `name`, if one exists.
pub open spec fn find_table(s: Seq<Table>, name: Seq<char>) -> Option<int> {
    find_table_from(s, name, 0)
}

/// Appending a table adds exactly its name to the catalog's name scan.
pub proof fn lemma_find_table_push(s: Seq<Table>, t: Table, name: Seq<char>)
    requires
        find_table(s, name) is None,
        t.name@ == name,
    ensures
        find_table(s.push(t), name) == Some(s.len() as int),
{
    lemma_find_table_push_from(s, t, name, 0);
}

proof fn lemma_find_table_push_from(s: Seq<Table>, t: Table, name: Seq<char>, j: int)
    requires
        0 <= j <= s.len(),
        find_table_from(s, name, j) is None,
        t.name@ == name,
    ensures
        find_table_from(s.push(t), name, j) == Some(s.len() as int),
    decreases s.len() - j,
{
    if j < s.len() {
        lemma_find_table_push_from(s, t, name, j + 1);
    }
}

/// When no table carries `name`, every table's name differs from it.
pub proof fn lemma_find_table_none(s: Seq<Table>, name: Seq<char>)
    requires
        find_table(s, name) is None,
    ensures
        forall|k: int| 0 <= k < s.len() ==> s[k].name@ != name,
{
    lemma_find_table_none_from(s, name, 0);
}

proof fn lemma_find_table_none_from(s: Seq<Table>, name: Seq<char>, j: int)
    requires
        0 <= j,
        find_table_from(s, name, j) is None,
    ensures
        forall|k: int| j <= k < s.len() ==> s[k].name@ != name,
    decreases s.len() - j,
{
    if j < s.len() {
        lemma_find_table_none_from(s, name, j + 1);
    }
}

/// The whole storage state: catalog, row stores, and the one global value
/// dictionary, owned exclusively for the duration of each request.
pub struct Storage {
    pub tables: Vec<Table>,
    pub dictionary_index: Dictionary,
}

/// Both halves of the storage state are the same.
pub open spec fn unchanged(a: Storage, b: Storage) -> bool {
    a.tables == b.tables && a.dictionary_index == b.dictionary_index
}

/// How a successful insertion relates the storage state after the call to
/// the one before it: the row store of table `i` grew by exactly the codes
/// `ids`, one per value in column order; every appended code is well-formed
/// and resolves, in the dictionary after the call, to exactly its value and
/// back; and a value the dictionary already knew kept the code it had.
pub open spec fn inserted_row(
    a: Storage,
    b: Storage,
    i: int,
    values: Seq<String>,
    ids: Seq<String>,
) -> bool {
    &&& 0 <= i < a.tables@.len()
    &&& ids.len() == values.len()
    &&& b.tables@.len() == a.tables@.len()
    &&& forall|j: int|
        0 <= j < a.tables@.len() && j != i ==> b.tables@[j] == a.tables@[j]
    &&& b.tables@[i].name == a.tables@[i].name
    &&& b.tables@[i].columns == a.tables@[i].columns
    &&& b.tables@[i].sidecar == a.tables@[i].sidecar
    &&& b.tables@[i].cells@ == a.tables@[i].cells@ + ids
    &&& forall|k: int|
        0 <= k < ids.len() ==> wf_id(#[trigger] ids[k]@) && find_id(
            b.dictionary_index.entries@,
            values[k]@,
        ) == Some(ids[k]@) && get_value(b.dictionary_index.entries@, ids[k]@) == Some(values[k]@)
    &&& forall|k: int|
        0 <= k < ids.len() && find_id(a.dictionary_index.entries@, #[trigger] values[k]@) is Some
            ==> find_id(a.dictionary_index.entries@, values[k]@) == Some(ids[k]@)
}

/// How `create_table` relates the storage state after the call to the one
/// before it, together with the message returned. An existing table keeps
/// its files and rows, and its catalog entry is reloaded from the sidecar
/// when one exists, else adopted from the caller; a new table is appended
/// with the caller's columns, a sidecar of the comma-joined names, and an
/// empty row store. The dictionary is untouched either way.
pub open spec fn create_post(
    a: Storage,
    b: Storage,
    name: Seq<char>,
    columns: Seq<String>,
    msg: Seq<char>,
) -> bool {
    &&& b.dictionary_index == a.dictionary_index
    &&& match find_table(a.tables@, name) {
        Some(i) => {
            &&& b.tables@.len() == a.tables@.len()
            &&& forall|j: int|
                0 <= j < a.tables@.len() && j != i ==> b.tables@[j] == a.tables@[j]
            &&& b.tables@[i].name == a.tables@[i].name
            &&& b.tables@[i].sidecar == a.tables@[i].sidecar
            &&& b.tables@[i].cells == a.tables@[i].cells
            &&& match a.tables@[i].sidecar {
                Some(line) => b.tables@[i].columns matches Some(cols) && cols.deep_view()
                    == comma_split_spec(line@),
                None => b.tables@[i].columns matches Some(cols) && cols@ == columns,
            }
            &&& msg == "Table "@ + name + " already exists."@
        },
        None => {
            &&& b.tables@.len() == a.tables@.len() + 1
            &&& b.tables@.drop_last() =~= a.tables@
            &&& b.tables@.last().name@ == name
            &&& b.tables@.last().columns matches Some(cols) && cols@ == columns
            &&& b.tables@.last().sidecar matches Some(line) && line@ == comma_join_spec(
                columns.map_values(|c: String| c@),
            )
            &&& b.tables@.last().cells@.len() == 0
            &&& msg == "Table "@ + name + " created."@
        },
    }
}

/// How `insert` relates the storage state after the call to the one before
/// it, together with its result. An unknown or unregistered table and a
/// column-count mismatch fail and change nothing; an absent result leaves
/// every row store unchanged; success appends exactly one row of resolved
/// codes and returns the code of the first column's value. Success is owed
/// whenever the identifier space cannot run out (the dictionary holds enough
/// room for one fresh identifier per value); and when every value is already
/// interned the dictionary is left exactly as it was: repeated insertion of
/// the same values adds nothing to it.
pub open spec fn insert_post(
    a: Storage,
    b: Storage,
    name: Seq<char>,
    values: Seq<String>,
    ok: bool,
    result: Option<String>,
) -> bool {
    &&& a.dictionary_index.entries@.is_prefix_of(b.dictionary_index.entries@)
    &&& match find_table(a.tables@, name) {
        None => ok == false && result is None && unchanged(a, b),
        Some(i) => match a.tables@[i].columns {
            None => ok == false && result is None && unchanged(a, b),
            Some(cols) => if cols@.len() != values.len() {
                ok == false && result is None && unchanged(a, b)
            } else {
                &&& match result {
                    None => ok == false && b.tables == a.tables,
                    Some(x) => ok == true && exists|ids: Seq<String>|
                        inserted_row(a, b, i, values, ids) && ids.len() > 0 && x@ == ids[0]@,
                }
                &&& (forall|k: int|
                    0 <= k < values.len() ==> find_id(
                        a.dictionary_index.entries@,
                        #[trigger] values[k]@,
                    ) is Some) ==> (ok == true && result is Some && b.dictionary_index.entries@
                    == a.dictionary_index.entries@)
                &&& a.dictionary_index.entries@.len() + values.len() <= ID_SPACE ==> (ok == true
                    && result is Some)
            },
        },
    }
}

/// What `select` returns: failure with no rows for an unknown or
/// unregistered table, else every complete stride of the row store as a row.
pub open spec fn select_post(
    s: Storage,
    name: Seq<char>,
    ok: bool,
    rows: Seq<Seq<(Seq<char>, Seq<char>)>>,
) -> bool {
    match find_table(s.tables@, name) {
        None => ok == false && rows.len() == 0,
        Some(i) => match s.tables@[i].columns {
            None => ok == false && rows.len() == 0,
            Some(cols) => ok == true && rows == spec_rows(
                s.dictionary_index.entries@,
                cols.deep_view(),
                s.tables@[i].cells.deep_view(),
            ),
        },
    }
}

/// The inputs on which the row insertion has no result to report: a table
/// registered with no columns at all, handed an empty row.
pub open spec fn insert_has_no_result(s: Storage, name: Seq<char>, values: Seq<String>) -> bool {
    match find_table(s.tables@, name) {
        Some(i) => match s.tables@[i].columns {
            Some(cols) => cols@.len() == 0 && values.len() == 0,
            None => false,
        },
        None => false,
    }
}

/// The inputs on which a scan has no stride to advance by: a table
/// registered with no columns at all.
pub open spec fn select_has_no_stride(s: Storage, name: Seq<char>) -> bool {
    match find_table(s.tables@, name) {
        Some(i) => match s.tables@[i].columns {
            Some(cols) => cols@.len() == 0,
            None => false,
        },
        None => false,
    }
}

impl Storage {
    /// The storage invariant: a well-formed dictionary, pairwise distinct
    /// table names, and fixed-width cells in every row store.
    pub open spec fn wf(&self) -> bool {
        &&& self.dictionary_index.wf()
        &&& forall|i: int, j: int|
            0 <= i < j < self.tables@.len() ==> self.tables@[i].name@ != self.tables@[j].name@
        &&& forall|i: int| 0 <= i < self.tables@.len() ==> self.tables@[i].wf()
    }

    /// Locate a table by name.
    fn find(&self, name: &String) -> (r: Option<usize>)
        ensures
            match r {
                Some(i) => 0 <= i < self.tables@.len() && find_table(self.tables@, name@)
                    == Some(i as int),
                None => find_table(self.tables@, name@) is None,
            },
    {
        let mut j: usize = 0;
        let n = self.tables.len();
        while j < n
            invariant
                n == self.tables@.len(),
                j <= n,
                find_table(self.tables@, name@) == find_table_from(self.tables@, name@, j as int),
            decreases n - j,
        {
            if self.tables[j].name == *name {
                return Some(j);
            }
            j = j + 1;
        }
        None
    }

    /// Create a table, or re-register one whose row-store file already
    /// exists. An existing table is never an error: its schema is reloaded
    /// from the sidecar when the sidecar exists, and adopted from the caller
    /// otherwise, and the call reports that the table already exists. A new
    /// table gets an empty row store and a sidecar holding the comma-joined
    /// column names.
    pub fn create_table(&mut self, table_name: &str, columns: Vec<String>) -> (r: (bool, String))
        requires
            old(self).wf(),
        ensures
            final(self).wf(),
            r.0 == true,
            create_post(*old(self), *final(self), table_name@, columns@, r.1@),
    {
        proof {
            assert(columns.deep_view() =~= columns@.map_values(|c: String| c@));
        }
        let name_s: String = table_name.to_owned();
        match self.find(&name_s) {
            Some(i) => {
                let new_cols: Vec<String> = match &self.tables[i].sidecar {
                    Some(line) => comma_split(line.as_str()),
                    None => columns,
                };
                self.tables[i].columns = Some(new_cols);
                let mut msg = String::from_str("Table ");
                msg.append(table_name);
                msg.append(" already exists.");
                proof {
                    reveal_strlit("Table ");
                    reveal_strlit(" already exists.");
                }
                (true, msg)
            },
            None => {
                let t = Table {
                    name: name_s,
                    columns: Some(columns.clone()),
                    sidecar: Some(comma_join(&columns)),
                    cells: Vec::new(),
                };
                proof {
                    lemma_find_table_none(self.tables@, table_name@);
                }
                self.tables.push(t);
                let mut msg = String::from_str("Table ");
                msg.append(table_name);
                msg.append(" created.");
                proof {
                    reveal_strlit("Table ");
                    reveal_strlit(" created.");
                    assert(final(self).tables@.drop_last() =~= old(self).tables@);
                }
                (true, msg)
            },
        }
    }

    /// Append one row: each value is resolved through the dictionary's
    /// scan-or-intern in column order, and the resolved codes are appended to
    /// the table's row store as one row. Fails, changing nothing, when the
    /// table is not in the catalog or the number of values differs from the
    /// column count. On success the result is the code resolved for the first
    /// column's value (the interned code of that value, not a per-row key).
    /// The result can also be absent when a fresh code could not be drawn; the
    /// row store is unchanged then, though values already resolved stay
    /// interned.
    pub fn insert(&mut self, table_name: &str, values: Vec<String>) -> (r: (bool, Option<String>))
        requires
            old(self).wf(),
            !insert_has_no_result(*old(self), table_name@, values@),
        ensures
            final(self).wf(),
            insert_post(*old(self), *final(self), table_name@, values@, r.0, r.1),
    {
        let name_s: String = table_name.to_owned();
        let i = match self.find(&name_s) {
            Some(i) => i,
            None => {
                return (false, None);
            },
        };
        let ncols = match &self.tables[i].columns {
            Some(cols) => cols.len(),
            None => {
                return (false, None);
            },
        };
        if ncols != values.len() {
            return (false, None);
        }
        let ghost d0 = self.dictionary_index.entries@;
        let mut ids: Vec<String> = Vec::new();
        let mut k: usize = 0;
        while k < values.len()
            invariant
                old(self).wf(),
                find_table(old(self).tables@, table_name@) == Some(i as int),
                0 <= i < old(self).tables@.len(),
                ncols == values@.len(),
                old(self).tables@[i as int].columns matches Some(cols) && cols@.len() == ncols,
                self.tables == old(self).tables,
                self.dictionary_index.wf(),
                d0 == old(self).dictionary_index.entries@,
                d0.is_prefix_of(self.dictionary_index.entries@),
                k <= values@.len(),
                ids@.len() == k,
                forall|m: int|
                    0 <= m < k ==> wf_id(#[trigger] ids@[m]@) && find_id(
                        self.dictionary_index.entries@,
                        values@[m]@,
                    ) == Some(ids@[m]@) && get_value(self.dictionary_index.entries@, ids@[m]@)
                        == Some(values@[m]@),
                forall|m: int|
                    0 <= m < k && find_id(d0, #[trigger] values@[m]@) is Some ==> find_id(
                        d0,
                        values@[m]@,
                    ) == Some(ids@[m]@),
                (forall|m: int|
                    0 <= m < values@.len() ==> find_id(d0, #[trigger] values@[m]@) is Some)
                    ==> self.dictionary_index.entries@ == d0,
                self.dictionary_index.entries@.len() <= d0.len() + k,
            decreases values@.len() - k,
        {
            let ghost dpre = self.dictionary_index.entries@;
            let id = match self.dictionary_index.lookup_or_insert(&values[k]) {
                Some(id) => id,
                None => {
                    proof {
                        if forall|m: int|
                            0 <= m < values@.len() ==> find_id(
                                d0,
                                #[trigger] values@[m]@,
                            ) is Some {
                            assert(find_id(d0, values@[k as int]@) is Some);
                            assert(false);
                        }
                    }
                    return (false, None);
                },
            };
            proof {
                let dnew = self.dictionary_index.entries@;
                if find_id(dpre, values@[k as int]@) is None {
                    assert(dnew =~= dpre.push(dnew.last()));
                    lemma_prefix_push(d0, dpre, dnew.last());
                    assert forall|m: int|
                        0 <= m < k implies wf_id(#[trigger] ids@[m]@) && find_id(
                        dnew,
                        values@[m]@,
                    ) == Some(ids@[m]@) && get_value(dnew, ids@[m]@) == Some(values@[m]@) by {
                        lemma_find_id_stable(dpre, dnew.last(), values@[m]@);
                        lemma_get_value_stable(dpre, dnew.last(), ids@[m]@);
                    }
                } else {
                    assert(dnew == dpre);
                }
                if find_id(d0, values@[k as int]@) is Some {
                    lemma_find_id_stable_ext(d0, dpre, values@[k as int]@);
                }
            }
            ids.push(id);
            k = k + 1;
        }
        proof {
            if values@.len() == 0 {
                assert(insert_has_no_result(*old(self), table_name@, values@));
            }
        }
        let first = ids[0].clone();
        let ghost appended = ids@;
        self.tables[i].cells.append(&mut ids);
        proof {
            assert(final(self).tables@[i as int].cells@ == old(self).tables@[i as int].cells@
                + appended);
            assert(inserted_row(*old(self), *final(self), i as int, values@, appended));
            let fs = *final(self);
            assert forall|j: int| 0 <= j < fs.tables@.len() implies fs.tables@[j].wf() by {
                if j == i {
                    assert(forall|m: int|
                        0 <= m < appended.len() ==> (#[trigger] appended[m])@.len() == 5);
                }
            }
        }
        (true, Some(first))
    }

    /// Scan a table: one row per complete stride of the row store, in
    /// insertion order, with no filtering. Each row maps every column name,
    /// in column order, to the value its cell code resolves to (an unknown
    /// code resolves to the empty string), followed by the synthetic `id`
    /// field carrying the row's first cell code. Fails, with no rows, when
    /// the table is not in the catalog.
    pub fn select(&self, table_name: &str) -> (r: (bool, Vec<Vec<(String, String)>>))
        requires
            self.wf(),
            !select_has_no_stride(*self, table_name@),
        ensures
            select_post(*self, table_name@, r.0, r.1.deep_view()),
    {
        let name_s: String = table_name.to_owned();
        let i = match self.find(&name_s) {
            Some(i) => i,
            None => {
                return (false, Vec::new());
            },
        };
        let columns = match &self.tables[i].columns {
            Some(c) => c,
            None => {
                return (false, Vec::new());
            },
        };
        let ncols = columns.len();
        let cells = &self.tables[i].cells;
        let len = cells.len();
        let ghost d = self.dictionary_index.entries@;
        let ghost ccols = columns.deep_view();
        let ghost ccells = cells.deep_view();
        let mut rows: Vec<Vec<(String, String)>> = Vec::new();
        let mut off: usize = 0;
        let ghost rr: int = 0;
        while len - off >= ncols
            invariant
                self.wf(),
                0 < ncols == ccols.len(),
                columns@.len() == ncols,
                cells@.len() == len,
                ccells.len() == len,
                ccells == cells.deep_view(),
                ccols == columns.deep_view(),
                d == self.dictionary_index.entries@,
                off <= len,
                off == rr * ncols,
                0 <= rr,
                rows@.len() == rr,
                rows.deep_view() =~= Seq::new(rr as nat, |q: int| spec_row(d, ccols, ccells, q)),
            decreases len - off,
        {
            let mut row: Vec<(String, String)> = Vec::new();
            let mut j: usize = 0;
            while j < ncols
                invariant
                    self.wf(),
                    0 < ncols == ccols.len(),
                    columns@.len() == ncols,
                    cells@.len() == len,
                    ccells.len() == len,
                    ccells == cells.deep_view(),
                    ccols == columns.deep_view(),
                    d == self.dictionary_index.entries@,
                    off + ncols <= len,
                    j <= ncols,
                    row@.len() == j,
                    forall|m: int|
                        0 <= m < j ==> row.deep_view()[m] == (ccols[m], resolve(
                            d,
                            ccells[off + m],
                        )),
                decreases ncols - j,
            {
                let value = match self.dictionary_index.get(&cells[off + j]) {
                    Some(v) => v,
                    None => String::new(),
                };
                let ghost prev = row.deep_view();
                row.push((columns[j].clone(), value));
                proof {
                    assert(row.deep_view() =~= prev.push(
                        (ccols[j as int], resolve(d, ccells[off + j])),
                    ));
                }
                j = j + 1;
            }
            let ghost prev_row = row.deep_view();
            row.push((String::from_str("id"), cells[off].clone()));
            proof {
                assert(row.deep_view() =~= prev_row.push(("id"@, ccells[off as int])));
                assert(row.deep_view() =~= spec_row(d, ccols, ccells, rr));
            }
            let ghost prev_rows = rows.deep_view();
            rows.push(row);
            off = off + ncols;
            proof {
                rr = rr + 1;
                assert(rows.deep_view() =~= prev_rows.push(spec_row(d, ccols, ccells, rr - 1)));
                assert(rows.deep_view() =~= Seq::new(rr as nat, |q: int| spec_row(d, ccols, ccells, q)));
                assert(off == rr * ncols) by (nonlinear_arith)
                    requires
                        off == (rr - 1) * ncols + ncols,
                ;
            }
        }
        proof {
            vstd::arithmetic::div_mod::lemma_fundamental_div_mod_converse(
                len as int,
                ncols as int,
                rr,
                len - off,
            );
            assert(rows.deep_view() =~= spec_rows(d, ccols, ccells));
        }
        (true, rows)
    }
}

/// The row-store text cut into five-character cell codes; a trailing
/// fragment shorter than one code is not a cell.
pub open spec fn chunked_cells(s: Seq<char>) -> Seq<Seq<char>> {
    Seq::new((s.len() as int / 5) as nat, |i: int| s.subrange(5 * i, 5 * i + 5))
}

impl Storage {
    /// Register a table found on disk at startup: the row-store file's text,
    /// and the sidecar line when the sidecar file exists. The table joins the
    /// catalog only when create_table later registers it. Refused, changing
    /// nothing, when the name is already taken.
    pub fn register_disk_table(&mut self, name: String, sidecar: Option<String>, rows: &str) -> (r:
        bool)
        requires
            old(self).wf(),
        ensures
            final(self).wf(),
            match find_table(old(self).tables@, name@) {
                Some(_) => r == false && unchanged(*old(self), *final(self)),
                None => {
                    &&& r == true
                    &&& final(self).tables@.len() == old(self).tables@.len() + 1
                    &&& final(self).tables@.drop_last() =~= old(self).tables@
                    &&& final(self).tables@.last().name@ == name@
                    &&& final(self).tables@.last().columns is None
                    &&& final(self).tables@.last().sidecar == sidecar
                    &&& final(self).tables@.last().cells.deep_view() == chunked_cells(rows@)
                    &&& final(self).dictionary_index == old(self).dictionary_index
                },
            },
    {
        if let Some(_) = self.find(&name) {
            return false;
        }
        let len = rows.unicode_len();
        let mut cells: Vec<String> = Vec::new();
        let mut off: usize = 0;
        let ghost rr: int = 0;
        while len - off >= 5
            invariant
                len == rows@.len(),
                off <= len,
                off == 5 * rr,
                0 <= rr,
                cells@.len() == rr,
                cells.deep_view() =~= Seq::new(rr as nat, |i: int| rows@.subrange(5 * i, 5 * i + 5)),
                forall|m: int| 0 <= m < cells@.len() ==> cells@[m]@.len() == 5,
            decreases len - off,
        {
            let piece = rows.substring_char(off, off + 5).to_owned();
            let ghost prev = cells.deep_view();
            cells.push(piece);
            off = off + 5;
            proof {
                rr = rr + 1;
                assert(cells.deep_view() =~= prev.push(rows@.subrange(5 * (rr - 1), 5 * rr)));
                assert(cells.deep_view() =~= Seq::new(
                    rr as nat,
                    |i: int| rows@.subrange(5 * i, 5 * i + 5),
                ));
            }
        }
        proof {
            vstd::arithmetic::div_mod::lemma_fundamental_div_mod_converse(
                len as int,
                5,
                rr,
                len - off,
            );
            assert(cells.deep_view() =~= chunked_cells(rows@));
            lemma_find_table_none(self.tables@, name@);
        }
        let t = Table { name, columns: None, sidecar, cells };
        self.tables.push(t);
        proof {
            assert(final(self).tables@.drop_last() =~= old(self).tables@);
        }
        true
    }
}

/// Rows are appended whole, so the row store's length stays a multiple of
/// the column count — and, at five characters per code, the row file's size
/// stays a multiple of the stride of five times the column count.
pub proof fn lemma_insert_keeps_stride(
    a: Storage,
    b: Storage,
    i: int,
    values: Seq<String>,
    ids: Seq<String>,
    ncols: int,
)
    requires
        inserted_row(a, b, i, values, ids),
        a.tables@[i].columns matches Some(cols) && cols@.len() == ncols,
        values.len() == ncols,
        0 < ncols,
        a.tables@[i].cells@.len() as int % ncols == 0,
    ensures
        b.tables@[i].cells@.len() as int % ncols == 0,
{
    vstd::arithmetic::div_mod::lemma_mod_multiples_vanish(
        1,
        a.tables@[i].cells@.len() as int,
        ncols,
    );
}

/// The scan for a table reads only the names, so two catalogs carrying the
/// same names in the same places resolve every name alike.
pub proof fn lemma_find_table_same_names(s1: Seq<Table>, s2: Seq<Table>, name: Seq<char>)
    requires
        s1.len() == s2.len(),
        forall|j: int| 0 <= j < s1.len() ==> s1[j].name@ == s2[j].name@,
    ensures
        find_table(s1, name) == find_table(s2, name),
{
    lemma_find_table_same_names_from(s1, s2, name, 0);
}

proof fn lemma_find_table_same_names_from(s1: Seq<Table>, s2: Seq<Table>, name: Seq<char>, j: int)
    requires
        0 <= j,
        s1.len() == s2.len(),
        forall|m: int| 0 <= m < s1.len() ==> s1[m].name@ == s2[m].name@,
    ensures
        find_table_from(s1, name, j) == find_table_from(s2, name, j),
    decreases s1.len() - j,
{
    if j < s1.len() {
        lemma_find_table_same_names_from(s1, s2, name, j + 1);
    }
}

/// The single-row scenario, composed across the three operations: on a store
/// that does not know table `name`, creating it with as many columns as
/// there are values, inserting one row, and scanning the table yields
/// exactly one row, mapping each column name to its value in column order
/// and carrying the first value's interned code in the `id` field.
pub proof fn lemma_single_row_scenario(
    s0: Storage,
    s1: Storage,
    s2: Storage,
    name: Seq<char>,
    columns: Seq<String>,
    values: Seq<String>,
    msg: Seq<char>,
    x: String,
    rows: Seq<Seq<(Seq<char>, Seq<char>)>>,
)
    requires
        find_table(s0.tables@, name) is None,
        create_post(s0, s1, name, columns, msg),
        insert_post(s1, s2, name, values, true, Some(x)),
        select_post(s2, name, true, rows),
        s2.wf(),
        columns.len() == values.len(),
        values.len() > 0,
    ensures
        rows.len() == 1,
        rows[0].len() == values.len() + 1,
        forall|j: int| 0 <= j < values.len() ==> rows[0][j] == (columns[j]@, values[j]@),
        rows[0][values.len() as int] == ("id"@, x@),
{
    let i = s0.tables@.len() as int;
    let t = s1.tables@.last();
    assert(s1.tables@ =~= s0.tables@.push(t));
    lemma_find_table_push(s0.tables@, t, name);
    assert(find_table(s1.tables@, name) == Some(i));
    let ids = choose|ids: Seq<String>|
        inserted_row(s1, s2, i, values, ids) && ids.len() > 0 && x@ == ids[0]@;
    assert forall|j: int| 0 <= j < s1.tables@.len() implies s1.tables@[j].name@
        == s2.tables@[j].name@ by {
        if j != i {
            assert(s2.tables@[j] == s1.tables@[j]);
        }
    }
    lemma_find_table_same_names(s1.tables@, s2.tables@, name);
    let cc = s1.tables@[i].columns.unwrap();
    assert(s2.tables@[i].columns == Some(cc));
    let n = values.len() as int;
    let cells = s2.tables@[i].cells;
    assert(cells@ =~= ids) by {
        assert(s1.tables@[i].cells@.len() == 0);
    }
    vstd::arithmetic::div_mod::lemma_div_by_self(n);
    assert(rows == spec_rows(s2.dictionary_index.entries@, cc.deep_view(), cells.deep_view()));
    assert(cells.deep_view().len() == n);
    assert(rows.len() == 1);
    let row = spec_row(s2.dictionary_index.entries@, cc.deep_view(), cells.deep_view(), 0);
    assert(rows[0] == row);
    assert forall|j: int| 0 <= j < n implies rows[0][j] == (columns[j]@, values[j]@) by {
        assert(cells.deep_view()[0 * n + j] == ids[j]@);
        assert(get_value(s2.dictionary_index.entries@, ids[j]@) == Some(values[j]@));
        assert(cc.deep_view()[j] == cc@[j]@);
        assert(cc@[j] == columns[j]);
    }
    assert(rows[0][n] == ("id"@, cells.deep_view()[0 * n]));
    assert(cells.deep_view()[0] == ids[0]@);
}

/// Inserting a row whose values are all already interned — as any repetition
/// of an earlier successful insert is — succeeds, returns exactly the code
/// the dictionary already holds for the first value, appends exactly one
/// row, and leaves the dictionary untouched: repeated interning adds nothing
/// and always yields the same code.
pub proof fn lemma_reinsert_interned(
    a: Storage,
    b: Storage,
    name: Seq<char>,
    values: Seq<String>,
    ok: bool,
    result: Option<String>,
    i: int,
)
    requires
        insert_post(a, b, name, values, ok, result),
        find_table(a.tables@, name) == Some(i),
        a.tables@[i].columns matches Some(cols) && cols@.len() == values.len(),
        values.len() > 0,
        forall|k: int|
            0 <= k < values.len() ==> find_id(
                a.dictionary_index.entries@,
                #[trigger] values[k]@,
            ) is Some,
    ensures
        ok == true,
        result matches Some(x) && Some(x@) == find_id(a.dictionary_index.entries@, values[0]@),
        b.dictionary_index.entries@ == a.dictionary_index.entries@,
        b.tables@[i].cells@.len() == a.tables@[i].cells@.len() + values.len(),
{
    let x = result.unwrap();
    let ids = choose|ids: Seq<String>|
        inserted_row(a, b, i, values, ids) && ids.len() > 0 && x@ == ids[0]@;
    assert(find_id(a.dictionary_index.entries@, values[0]@) == Some(ids[0]@));
}

/// A scan right after a successful insert shows the inserted row last: the
/// row count grows by exactly one whole stride, and the new row maps each
/// column name to its inserted value, in column order, with the first
/// value's code in the `id` field. Chained over a run of inserts — which the
/// one exclusive storage lock serializes — a scan after the run shows one
/// whole row per insert, in insertion order.
pub proof fn lemma_scan_after_insert(
    a: Storage,
    b: Storage,
    name: Seq<char>,
    values: Seq<String>,
    x: String,
    rows: Seq<Seq<(Seq<char>, Seq<char>)>>,
    i: int,
)
    requires
        insert_post(a, b, name, values, true, Some(x)),
        select_post(b, name, true, rows),
        find_table(a.tables@, name) == Some(i),
        a.tables@[i].columns matches Some(cols) && cols@.len() == values.len(),
        values.len() > 0,
        a.tables@[i].cells@.len() as int % (values.len() as int) == 0,
    ensures
        rows.len() == a.tables@[i].cells@.len() as int / (values.len() as int) + 1,
        rows.last().len() == values.len() + 1,
        forall|j: int|
            0 <= j < values.len() ==> rows.last()[j] == (
                a.tables@[i].columns.unwrap()@[j]@,
                values[j]@,
            ),
        rows.last()[values.len() as int] == ("id"@, x@),
{
    let n = values.len() as int;
    let ids = choose|ids: Seq<String>|
        inserted_row(a, b, i, values, ids) && ids.len() > 0 && x@ == ids[0]@;
    assert forall|j: int| 0 <= j < a.tables@.len() implies a.tables@[j].name@
        == b.tables@[j].name@ by {
        if j != i {
            assert(b.tables@[j] == a.tables@[j]);
        }
    }
    lemma_find_table_same_names(a.tables@, b.tables@, name);
    let cc = a.tables@[i].columns.unwrap();
    assert(b.tables@[i].columns == Some(cc));
    let el = a.tables@[i].cells@.len() as int;
    let cells = b.tables@[i].cells;
    assert(cells@ == a.tables@[i].cells@ + ids);
    assert(cells@.len() == el + n);
    vstd::arithmetic::div_mod::lemma_fundamental_div_mod(el, n);
    let r = el / n;
    assert(n * r == el);
    vstd::arithmetic::mul::lemma_mul_is_distributive_add(n, r, 1);
    assert(n * (r + 1) == el + n);
    vstd::arithmetic::div_mod::lemma_div_multiples_vanish(r + 1, n);
    assert((el + n) / n == r + 1);
    vstd::arithmetic::mul::lemma_mul_is_commutative(r, n);
    let d = b.dictionary_index.entries@;
    let ccv = cc.deep_view();
    let cellsv = cells.deep_view();
    assert(rows == spec_rows(d, ccv, cellsv));
    assert(rows.len() == r + 1);
    assert(rows.last() == spec_row(d, ccv, cellsv, r));
    assert(r * n == el);
    assert forall|j: int| 0 <= j < n implies rows.last()[j] == (ccv[j], values[j]@) by {
        assert(r * n + j == el + j);
        assert(cells@[el + j] == ids[j]);
        assert(cellsv[r * n + j] == ids[j]@);
        assert(get_value(d, ids[j]@) == Some(values[j]@));
    }
    assert(rows.last()[n] == ("id"@, cellsv[r * n]));
    assert(cellsv[el] == ids[0]@) by {
        assert(cells@[el + 0] == ids[0]);
    }
}

/// Rows inserted one after the other — as the dispatcher's caller serializes
/// them under the one exclusive storage lock, whichever connections they came
/// from — carry distinct codes whenever their first-column values are
/// distinct: the later insert only extends the dictionary, so the code the
/// earlier insert returned still stands for its value, and distinct values
/// resolve to distinct codes. With the row growth `insert_post` states per
/// call, a run of inserts of pairwise-distinct values leaves exactly one
/// whole row per insert, each carrying its own code.
pub proof fn lemma_serial_inserts_distinct_codes(
    a: Storage,
    b: Storage,
    c: Storage,
    n1: Seq<char>,
    n2: Seq<char>,
    v1: Seq<String>,
    v2: Seq<String>,
    x1: String,
    x2: String,
)
    requires
        insert_post(a, b, n1, v1, true, Some(x1)),
        insert_post(b, c, n2, v2, true, Some(x2)),
        c.wf(),
        v1.len() > 0,
        v2.len() > 0,
        v1[0]@ != v2[0]@,
    ensures
        x1@ != x2@,
{
    let i1 = find_table(a.tables@, n1).unwrap();
    let ids1 = choose|ids: Seq<String>|
        inserted_row(a, b, i1, v1, ids) && ids.len() > 0 && x1@ == ids[0]@;
    let i2 = find_table(b.tables@, n2).unwrap();
    let ids2 = choose|ids: Seq<String>|
        inserted_row(b, c, i2, v2, ids) && ids.len() > 0 && x2@ == ids[0]@;
    assert(find_id(b.dictionary_index.entries@, v1[0]@) == Some(x1@));
    assert(find_id(c.dictionary_index.entries@, v2[0]@) == Some(x2@));
    lemma_find_id_stable_ext(b.dictionary_index.entries@, c.dictionary_index.entries@, v1[0]@);
    crate::dict::lemma_distinct_values_distinct_ids(c.dictionary_index.entries@, v1[0]@, v2[0]@);
}

/// Creating a table twice with one name is idempotent on the schema: the
/// first creation registers columns `cols1` and stores their comma-joined
/// sidecar line; the second, whatever columns it supplies, reloads the
/// schema from that line and gets `cols1` back — for the schemas the
/// sidecar format preserves: at least one column name, none containing a
/// comma. Both calls report success by the contract of `create_table`.
pub proof fn lemma_create_table_idempotent(
    a: Storage,
    b: Storage,
    c: Storage,
    name: Seq<char>,
    cols1: Seq<String>,
    cols2: Seq<String>,
    msg1: Seq<char>,
    msg2: Seq<char>,
)
    requires
        find_table(a.tables@, name) is None,
        create_post(a, b, name, cols1, msg1),
        create_post(b, c, name, cols2, msg2),
        cols1.len() >= 1,
        forall|i: int| 0 <= i < cols1.len() ==> !cols1[i]@.contains(','),
    ensures
        find_table(b.tables@, name) == Some(a.tables@.len() as int),
        c.tables@[a.tables@.len() as int].columns matches Some(cc) && cc.deep_view()
            == cols1.map_values(|x: String| x@),
{
    let t = b.tables@.last();
    assert(b.tables@ =~= a.tables@.push(t));
    lemma_find_table_push(a.tables@, t, name);
    let line = t.sidecar.unwrap();
    let views = cols1.map_values(|x: String| x@);
    assert(forall|i: int| 0 <= i < views.len() ==> !(#[trigger] views[i]).contains(','));
    crate::strutil::lemma_join_split_round_trip(views);
}

/// The value a cell code resolves to in a scan: the dictionary value, or the
/// empty string when the code is unknown.
pub open spec fn resolve(d: Seq<DictEntry>, id: Seq<char>) -> Seq<char> {
    match get_value(d, id) {
        Some(v) => v,
        None => Seq::empty(),
    }
}

/// Row `r` of a scan: each column name, in column order, paired with the
/// resolved value of the row's cell in that column, then the synthetic `id`
/// field carrying the row's first cell code.
pub open spec fn spec_row(
    d: Seq<DictEntry>,
    cols: Seq<Seq<char>>,
    cells: Seq<Seq<char>>,
    r: int,
) -> Seq<(Seq<char>, Seq<char>)> {
    Seq::new(
        cols.len() + 1,
        |j: int|
            if j < cols.len() {
                (cols[j], resolve(d, cells[r * cols.len() as int + j]))
            } else {
                ("id"@, cells[r * cols.len() as int])
            },
    )
}

/// All rows of a scan: one per complete stride, a stride being one cell per
/// column; a trailing partial stride is not a row.
pub open spec fn spec_rows(
    d: Seq<DictEntry>,
    cols: Seq<Seq<char>>,
    cells: Seq<Seq<char>>,
) -> Seq<Seq<(Seq<char>, Seq<char>)>> {
    Seq::new((cells.len() as int / cols.len() as int) as nat, |r: int| spec_row(d, cols, cells, r))
}

} // verus!
