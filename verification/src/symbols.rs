//! The symbols that the database describes.

use crate::error::Error;
use crate::search::{lowercase, to_lowercase};
use dashmap::DashMap;
use vstd::prelude::*;

verus! {

#[verifier::external_type_specification]
#[verifier::external_body]
#[verifier::reject_recursive_types(K)]
#[verifier::reject_recursive_types(V)]
#[verifier::reject_recursive_types(S)]
pub struct ExDashMap<K, V, S>(dashmap::DashMap<K, V, S>);

/// The characters of an optional text.
pub open spec fn text_view(text: Option<String>) -> Option<Seq<char>> {
    match text {
        Some(text) => Some(text@),
        None => None,
    }
}

/// A copy of an optional text.
pub fn copy_text(text: &Option<String>) -> (r: Option<String>)
    ensures
        text_view(r) == text_view(*text),
{
    match text {
        Some(text) => Some(text.clone()),
        None => None,
    }
}

/// What is known of a symbol.
#[derive(Debug)]
pub struct SymbolInfo {
    pub hover: Option<String>,
    pub definition: Option<String>,
    pub definition_file_ext: Option<String>,
}

/// What a `SymbolInfo` says.
pub struct InfoView {
    pub hover: Option<Seq<char>>,
    pub definition: Option<Seq<char>>,
    pub definition_file_ext: Option<Seq<char>>,
}

impl View for SymbolInfo {
    type V = InfoView;

    open spec fn view(&self) -> InfoView {
        InfoView {
            hover: text_view(self.hover),
            definition: text_view(self.definition),
            definition_file_ext: text_view(self.definition_file_ext),
        }
    }
}

impl Clone for SymbolInfo {
    fn clone(&self) -> (r: Self)
        ensures
            r@ == self@,
    {
        SymbolInfo {
            hover: copy_text(&self.hover),
            definition: copy_text(&self.definition),
            definition_file_ext: copy_text(&self.definition_file_ext),
        }
    }
}

/// A symbol: its name and what is known of it.
#[derive(Debug)]
pub struct Symbol {
    pub name: String,
    pub info: SymbolInfo,
}

/// What a `Symbol` says.
pub struct SymbolView {
    pub name: Seq<char>,
    pub info: InfoView,
}

impl View for Symbol {
    type V = SymbolView;

    open spec fn view(&self) -> SymbolView {
        SymbolView { name: self.name@, info: self.info@ }
    }
}

impl Clone for Symbol {
    fn clone(&self) -> (r: Self)
        ensures
            r@ == self@,
    {
        Symbol { name: self.name.clone(), info: self.info.clone() }
    }
}

/// The views of a list of symbols.
pub open spec fn symbol_views(symbols: Seq<Symbol>) -> Seq<SymbolView> {
    symbols.map_values(|s: Symbol| s@)
}

/// What a table of symbols holds, by name.
pub uninterp spec fn symbol_table(symbols: DashMap<String, SymbolInfo>) -> Map<
    Seq<char>,
    InfoView,
>;

/// Whether `list` holds each symbol of `table` once, in whatever order, and nothing else.
pub open spec fn lists(table: Map<Seq<char>, InfoView>, list: Seq<SymbolView>) -> bool {
    &&& forall|i: int|
        0 <= i < list.len() ==> table.dom().contains((#[trigger] list[i]).name)
            && table[list[i].name] == list[i].info
    &&& forall|i: int, j: int|
        0 <= i < j < list.len() ==> (#[trigger] list[i]).name != (#[trigger] list[j]).name
    &&& forall|name: Seq<char>| #[trigger]
        table.dom().contains(name) ==> exists|i: int|
            0 <= i < list.len() && (#[trigger] list[i]).name == name
}

/// `DashMap::new`: an empty table.
#[verifier::external_body]
pub(crate) fn symbols_new() -> (r: DashMap<String, SymbolInfo>)
    ensures
        symbol_table(r).dom() == Set::<Seq<char>>::empty(),
{
    DashMap::new()
}

/// `DashMap::insert`: the name now stands for `info`, whatever it stood for before.
#[verifier::external_body]
pub(crate) fn symbols_insert(
    symbols: &mut DashMap<String, SymbolInfo>,
    name: String,
    info: SymbolInfo,
)
    ensures
        symbol_table(*final(symbols)) == symbol_table(*old(symbols)).insert(name@, info@),
{
    symbols.insert(name, info);
}

/// `DashMap::get`: the symbol of that name.
#[verifier::external_body]
pub(crate) fn symbols_get(symbols: &DashMap<String, SymbolInfo>, name: &str) -> (r: Option<Symbol>)
    ensures
        r is Some <==> symbol_table(*symbols).dom().contains(name@),
        r is Some ==> r->0.name@ == name@ && r->0.info@ == symbol_table(*symbols)[name@],
{
    symbols.get(name).map(|s| Symbol { name: s.key().clone(), info: s.value().clone() })
}

/// `DashMap::iter`: all symbols, in an order that nothing fixes.
#[verifier::external_body]
pub(crate) fn symbols_list(symbols: &DashMap<String, SymbolInfo>) -> (r: Vec<Symbol>)
    ensures
        lists(symbol_table(*symbols), symbol_views(r@)),
{
    symbols.iter().map(|s| Symbol { name: s.key().clone(), info: s.value().clone() }).collect()
}

/// A column of a row of the database.
#[derive(Debug)]
pub enum Column {
    /// The column holds a text.
    Text(String),
    /// The column is empty.
    Null,
    /// The column is missing or holds something else.
    Unreadable,
}

/// The text of a column, if it holds one.
pub open spec fn column_view(column: Column) -> Option<Seq<char>> {
    match column {
        Column::Text(text) => Some(text@),
        _ => None,
    }
}

/// A row of the database: what it says of one symbol.
#[derive(Debug)]
pub struct SymbolRow {
    pub identifier: Column,
    pub hover: Column,
    pub definition: Column,
    pub definition_file_ext: Column,
}

/// What a row says of its symbol, apart from the name.
pub open spec fn row_info(row: SymbolRow) -> InfoView {
    InfoView {
        hover: column_view(row.hover),
        definition: column_view(row.definition),
        definition_file_ext: column_view(row.definition_file_ext),
    }
}

/// The number of rows before the first that has no text as its identifier.
pub open spec fn good_rows(rows: Seq<SymbolRow>) -> nat
    decreases rows.len(),
{
    if rows.len() == 0 {
        0
    } else if good_rows(rows.drop_last()) < rows.len() - 1 || !(rows.last().identifier is Text) {
        good_rows(rows.drop_last())
    } else {
        rows.len()
    }
}

/// A table after rows have been entered, all of which have an identifier; a later row replaces
/// an earlier one of the same name.
pub open spec fn filled(table: Map<Seq<char>, InfoView>, rows: Seq<SymbolRow>) -> Map<
    Seq<char>,
    InfoView,
>
    decreases rows.len(),
{
    if rows.len() == 0 {
        table
    } else {
        filled(table, rows.drop_last()).insert(
            column_view(rows.last().identifier)->0,
            row_info(rows.last()),
        )
    }
}

/// What comes of entering rows: an error names the first row without an identifier.
pub open spec fn rows_result(rows: Seq<SymbolRow>) -> Result<(), Error> {
    let n = good_rows(rows) as int;
    if n == rows.len() {
        Ok(())
    } else if rows[n].identifier is Null {
        Err(Error::IdentifierMissing(n as usize))
    } else {
        Err(Error::IdentifierUnreadable(n as usize))
    }
}

fn column_text(column: &Column) -> (r: Option<String>)
    ensures
        text_view(r) == column_view(*column),
{
    match column {
        Column::Text(text) => Some(text.clone()),
        Column::Null => None,
        Column::Unreadable => None,
    }
}

proof fn lemma_good_rows(rows: Seq<SymbolRow>, n: int)
    requires
        0 <= n <= rows.len(),
        forall|i: int| 0 <= i < n ==> (#[trigger] rows[i]).identifier is Text,
        n < rows.len() ==> !(rows[n].identifier is Text),
    ensures
        good_rows(rows) == n,
    decreases rows.len(),
{
    if rows.len() > 0 {
        if n < rows.len() {
            lemma_good_rows(rows.drop_last(), n);
        } else {
            lemma_good_rows(rows.drop_last(), n - 1);
        }
    }
}

/// The last row of a name is the one that counts.
pub proof fn law_last_row_counts(table: Map<Seq<char>, InfoView>, rows: Seq<SymbolRow>, i: int)
    requires
        0 <= i < rows.len(),
        forall|j: int| 0 <= j < rows.len() ==> (#[trigger] rows[j]).identifier is Text,
        forall|j: int|
            i < j < rows.len() ==> column_view((#[trigger] rows[j]).identifier) != column_view(
                rows[i].identifier,
            ),
    ensures
        filled(table, rows).dom().contains(column_view(rows[i].identifier)->0),
        filled(table, rows)[column_view(rows[i].identifier)->0] == row_info(rows[i]),
    decreases rows.len(),
{
    if i < rows.len() - 1 {
        law_last_row_counts(table, rows.drop_last(), i);
        assert(rows.last() == rows[rows.len() - 1]);
        assert(column_view(rows[rows.len() - 1].identifier) != column_view(rows[i].identifier));
    }
}

/// A name that no row has stands for what it stood for before.
pub proof fn law_other_names_are_kept(
    table: Map<Seq<char>, InfoView>,
    rows: Seq<SymbolRow>,
    name: Seq<char>,
)
    requires
        forall|j: int| 0 <= j < rows.len() ==> (#[trigger] rows[j]).identifier is Text,
        forall|j: int|
            0 <= j < rows.len() ==> column_view((#[trigger] rows[j]).identifier) != Some(name),
    ensures
        filled(table, rows).dom().contains(name) == table.dom().contains(name),
        table.dom().contains(name) ==> filled(table, rows)[name] == table[name],
    decreases rows.len(),
{
    if rows.len() > 0 {
        law_other_names_are_kept(table, rows.drop_last(), name);
        assert(column_view(rows[rows.len() - 1].identifier) != Some(name));
    }
}

/// Enters rows into a table, up to the first that has no text as its identifier.
pub(crate) fn insert_rows(
    symbols: &mut DashMap<String, SymbolInfo>,
    rows: &Vec<SymbolRow>,
) -> (r: Result<(), Error>)
    ensures
        r == rows_result(rows@),
        symbol_table(*final(symbols)) == filled(
            symbol_table(*old(symbols)),
            rows@.take(good_rows(rows@) as int),
        ),
{
    let ghost table = symbol_table(*symbols);
    let mut i: usize = 0;
    proof {
        assert(rows@.take(0) =~= Seq::<SymbolRow>::empty());
    }
    while i < rows.len()
        invariant
            i <= rows.len(),
            table == symbol_table(*old(symbols)),
            forall|j: int| 0 <= j < i ==> (#[trigger] rows@[j]).identifier is Text,
            symbol_table(*symbols) == filled(table, rows@.take(i as int)),
        decreases rows.len() - i,
    {
        let row = &rows[i];
        match &row.identifier {
            Column::Text(name) => {
                proof {
                    assert(rows@.take(i + 1).drop_last() =~= rows@.take(i as int));
                }
                let info = SymbolInfo {
                    hover: column_text(&row.hover),
                    definition: column_text(&row.definition),
                    definition_file_ext: column_text(&row.definition_file_ext),
                };
                symbols_insert(symbols, name.clone(), info);
            },
            Column::Null => {
                proof {
                    lemma_good_rows(rows@, i as int);
                }
                return Err(Error::IdentifierMissing(i));
            },
            Column::Unreadable => {
                proof {
                    lemma_good_rows(rows@, i as int);
                }
                return Err(Error::IdentifierUnreadable(i));
            },
        }
        i += 1;
    }
    proof {
        lemma_good_rows(rows@, i as int);
    }
    Ok(())
}

/// The first symbol whose name is `ident` when both are in lower case.
pub open spec fn found_ignoring_case(list: Seq<SymbolView>, ident: Seq<char>) -> Option<SymbolView>
    decreases list.len(),
{
    if list.len() == 0 {
        None
    } else if lowercase(list[0].name) == lowercase(ident) {
        Some(list[0])
    } else {
        found_ignoring_case(list.drop_first(), ident)
    }
}

proof fn lemma_found_ignoring_case(list: Seq<SymbolView>, ident: Seq<char>, n: int)
    requires
        0 <= n <= list.len(),
        forall|i: int| 0 <= i < n ==> lowercase((#[trigger] list[i]).name) != lowercase(ident),
    ensures
        found_ignoring_case(list, ident) == found_ignoring_case(list.skip(n), ident),
    decreases n,
{
    if n > 0 {
        assert(list.drop_first().skip(n - 1) =~= list.skip(n));
        lemma_found_ignoring_case(list.drop_first(), ident, n - 1);
    } else {
        assert(list.skip(0) =~= list);
    }
}

/// The lower case of a text (`str::to_lowercase`).
pub fn lower(s: &str) -> (r: String)
    ensures
        r@ == lowercase(s@),
{
    to_lowercase(s)
}

/// The first symbol of the list whose name is `ident`, but for the case of the letters.
pub fn find_ignoring_case(list: &Vec<Symbol>, ident: &str) -> (r: Option<Symbol>)
    ensures
        r is Some <==> found_ignoring_case(symbol_views(list@), ident@) is Some,
        r is Some ==> Some(r->0@) == found_ignoring_case(symbol_views(list@), ident@),
{
    let wanted = lower(ident);
    let ghost views = symbol_views(list@);
    let mut i: usize = 0;
    while i < list.len()
        invariant
            i <= list.len(),
            views == symbol_views(list@),
            wanted@ == lowercase(ident@),
            forall|j: int|
                0 <= j < i ==> lowercase((#[trigger] views[j]).name) != lowercase(ident@),
        decreases list.len() - i,
    {
        if lower(list[i].name.as_str()) == wanted {
            proof {
                lemma_found_ignoring_case(views, ident@, i as int);
                assert(views.skip(i as int)[0] == views[i as int]);
            }
            return Some(list[i].clone());
        }
        i += 1;
    }
    proof {
        lemma_found_ignoring_case(views, ident@, i as int);
    }
    None
}

/// What is found is of the list, and its name differs from the identifier in the case of letters
/// alone; where nothing is found, the list holds no such name.
pub proof fn law_found_ignoring_case(list: Seq<SymbolView>, ident: Seq<char>)
    ensures
        found_ignoring_case(list, ident) is Some ==> list.contains(
            found_ignoring_case(list, ident)->0,
        ) && lowercase(found_ignoring_case(list, ident)->0.name) == lowercase(ident),
        found_ignoring_case(list, ident) is None ==> forall|i: int|
            0 <= i < list.len() ==> lowercase((#[trigger] list[i]).name) != lowercase(ident),
    decreases list.len(),
{
    if list.len() > 0 && lowercase(list[0].name) != lowercase(ident) {
        let rest = list.drop_first();
        law_found_ignoring_case(rest, ident);
        if found_ignoring_case(rest, ident) is Some {
            let k = choose|k: int|
                0 <= k < rest.len() && rest[k] == found_ignoring_case(rest, ident)->0;
            assert(list[k + 1] == rest[k]);
        } else {
            assert forall|i: int| 0 <= i < list.len() implies lowercase((#[trigger] list[i]).name)
                != lowercase(ident) by {
                if i > 0 {
                    assert(list[i] == rest[i - 1]);
                }
            }
        }
    }
}

/// Rows are entered up to the first that has no text as its identifier. An error tells which one
/// that is, and whether its identifier is empty or can not be read; without one all is well.
pub proof fn law_first_row_without_identifier(rows: Seq<SymbolRow>, n: int)
    requires
        0 <= n <= rows.len() <= usize::MAX,
        forall|i: int| 0 <= i < n ==> (#[trigger] rows[i]).identifier is Text,
        n < rows.len() ==> !(rows[n].identifier is Text),
    ensures
        rows.take(good_rows(rows) as int) == rows.take(n),
        n == rows.len() ==> rows_result(rows) == Ok::<(), Error>(()),
        n < rows.len() && rows[n].identifier is Null ==> rows_result(rows) == Err::<(), Error>(
            Error::IdentifierMissing(n as usize),
        ),
        n < rows.len() && rows[n].identifier is Unreadable ==> rows_result(rows) == Err::<
            (),
            Error,
        >(Error::IdentifierUnreadable(n as usize)),
{
    lemma_good_rows(rows, n);
}

/// What the last row of a name says is what is known of the symbol, character for character. A
/// column that holds no text tells nothing.
pub proof fn law_row_is_told(table: Map<Seq<char>, InfoView>, rows: Seq<SymbolRow>, i: int)
    requires
        0 <= i < rows.len(),
        forall|j: int| 0 <= j < rows.len() ==> (#[trigger] rows[j]).identifier is Text,
        forall|j: int|
            i < j < rows.len() ==> (#[trigger] rows[j]).identifier->Text_0@
                != rows[i].identifier->Text_0@,
    ensures
        ({
            let info = filled(table, rows)[rows[i].identifier->Text_0@];
            &&& filled(table, rows).dom().contains(rows[i].identifier->Text_0@)
            &&& match rows[i].hover {
                Column::Text(text) => info.hover == Some(text@),
                _ => info.hover is None,
            }
            &&& match rows[i].definition {
                Column::Text(text) => info.definition == Some(text@),
                _ => info.definition is None,
            }
            &&& match rows[i].definition_file_ext {
                Column::Text(text) => info.definition_file_ext == Some(text@),
                _ => info.definition_file_ext is None,
            }
        }),
{
    assert forall|j: int| i < j < rows.len() implies column_view((#[trigger] rows[j]).identifier)
        != column_view(rows[i].identifier) by {
        assert(rows[j].identifier->Text_0@ != rows[i].identifier->Text_0@);
    }
    law_last_row_counts(table, rows, i);
}

/// The symbols are those that were known and those that the rows name, and no others.
pub proof fn law_names_come_from_rows(
    table: Map<Seq<char>, InfoView>,
    rows: Seq<SymbolRow>,
    name: Seq<char>,
)
    requires
        forall|j: int| 0 <= j < rows.len() ==> (#[trigger] rows[j]).identifier is Text,
    ensures
        filled(table, rows).dom().contains(name) <==> table.dom().contains(name) || exists|i: int|
            0 <= i < rows.len() && (#[trigger] rows[i]).identifier->Text_0@ == name,
    decreases rows.len(),
{
    if rows.len() > 0 {
        let rest = rows.drop_last();
        let last = rows.len() - 1;
        law_names_come_from_rows(table, rest, name);
        assert(rows[last].identifier is Text);
        if exists|i: int| 0 <= i < rest.len() && (#[trigger] rest[i]).identifier->Text_0@ == name {
            let i = choose|i: int|
                0 <= i < rest.len() && (#[trigger] rest[i]).identifier->Text_0@ == name;
            assert(rows[i].identifier->Text_0@ == name);
        }
        if exists|i: int| 0 <= i < rows.len() && (#[trigger] rows[i]).identifier->Text_0@ == name {
            let i = choose|i: int|
                0 <= i < rows.len() && (#[trigger] rows[i]).identifier->Text_0@ == name;
            if i < last {
                assert(rest[i].identifier->Text_0@ == name);
            }
        }
    }
}

/// What a list of symbols says is what each of them says: the characters of its name and of each
/// text that it has.
pub proof fn law_symbols_are_taken_as_they_are(symbols: Seq<Symbol>, i: int)
    requires
        0 <= i < symbols.len(),
    ensures
        symbol_views(symbols).len() == symbols.len(),
        symbol_views(symbols)[i].name == symbols[i].name@,
        match symbols[i].info.hover {
            Some(text) => symbol_views(symbols)[i].info.hover == Some(text@),
            None => symbol_views(symbols)[i].info.hover is None,
        },
        match symbols[i].info.definition {
            Some(text) => symbol_views(symbols)[i].info.definition == Some(text@),
            None => symbol_views(symbols)[i].info.definition is None,
        },
        match symbols[i].info.definition_file_ext {
            Some(text) => symbol_views(symbols)[i].info.definition_file_ext == Some(text@),
            None => symbol_views(symbols)[i].info.definition_file_ext is None,
        },
{
}

} // verus!
