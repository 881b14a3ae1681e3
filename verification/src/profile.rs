//! What is kept across runs: which proxy each group uses, and which address stands for which host.
use vstd::prelude::*;

use crate::text;

verus! {

/// A table of what is kept.
#[derive(Clone, Copy, Debug, PartialEq, Eq, Structural)]
pub enum Table {
    Selected,
    IpToHost,
    HostToIp,
}

/// A change to a table.
#[derive(Debug)]
pub enum TableWrite {
    Put(Table, String, String),
    Remove(Table, String),
}

/// A change to a table.
pub enum WriteView {
    Put(Table, Seq<char>, Seq<char>),
    Remove(Table, Seq<char>),
}

impl View for TableWrite {
    type V = WriteView;

    open spec fn view(&self) -> WriteView {
        match self {
            TableWrite::Put(table, key, value) => WriteView::Put(*table, key@, value@),
            TableWrite::Remove(table, key) => WriteView::Remove(*table, key@),
        }
    }
}

/// Changes to tables.
pub open spec fn write_views(list: Seq<TableWrite>) -> Seq<WriteView> {
    list.map_values(|w: TableWrite| w@)
}

/// A key and its value.
#[derive(Debug)]
pub struct Row {
    pub key: String,
    pub value: String,
}

/// Keys and their values.
pub open spec fn row_views(rows: Seq<Row>) -> Seq<(Seq<char>, Seq<char>)> {
    rows.map_values(|r: Row| (r.key@, r.value@))
}

/// The place of a key, from `from` on.
pub open spec fn row_place(rows: Seq<(Seq<char>, Seq<char>)>, key: Seq<char>, from: int) -> int
    decreases rows.len() - from,
{
    if from < 0 || from >= rows.len() || rows[from].0 == key {
        from
    } else {
        row_place(rows, key, from + 1)
    }
}

/// The value of a key.
pub open spec fn row_value(rows: Seq<(Seq<char>, Seq<char>)>, key: Seq<char>) -> Option<Seq<char>> {
    let at = row_place(rows, key, 0);
    if at < rows.len() {
        Some(rows[at].1)
    } else {
        None
    }
}

/// The rows with a key set.
pub open spec fn row_put(
    rows: Seq<(Seq<char>, Seq<char>)>,
    key: Seq<char>,
    value: Seq<char>,
) -> Seq<(Seq<char>, Seq<char>)> {
    let at = row_place(rows, key, 0);
    if at < rows.len() {
        rows.update(at, (key, value))
    } else {
        rows.push((key, value))
    }
}

/// The rows without a key.
pub open spec fn row_removed(rows: Seq<(Seq<char>, Seq<char>)>, key: Seq<char>) -> Seq<
    (Seq<char>, Seq<char>),
> {
    let at = row_place(rows, key, 0);
    if at < rows.len() {
        rows.remove(at)
    } else {
        rows
    }
}

/// No key occurs twice.
pub open spec fn keys_once(rows: Seq<(Seq<char>, Seq<char>)>) -> bool {
    forall|i: int, j: int|
        0 <= i < j < rows.len() ==> (#[trigger] rows[i]).0 != (#[trigger] rows[j]).0
}

fn find_row(rows: &Vec<Row>, key: &str) -> (res: usize)
    ensures
        res == row_place(row_views(rows@), key@, 0),
        res <= rows@.len(),
{
    let ghost all = row_views(rows@);
    let mut i: usize = 0;
    while i < rows.len()
        invariant
            i <= rows@.len(),
            all == row_views(rows@),
            row_place(all, key@, 0) == row_place(all, key@, i as int),
        decreases rows@.len() - i,
    {
        assert(all[i as int].0 == rows@[i as int].key@);
        if text::same(rows[i].key.as_str(), key) {
            return i;
        }
        i = i + 1;
    }
    i
}

fn get_row(rows: &Vec<Row>, key: &str) -> (res: Option<String>)
    ensures
        text::opt_view(res) == row_value(row_views(rows@), key@),
{
    let at: usize = find_row(rows, key);
    if at < rows.len() {
        assert(row_views(rows@)[at as int].1 == rows@[at as int].value@);
        Some(rows[at].value.clone())
    } else {
        None
    }
}

fn put_row(rows: &mut Vec<Row>, key: &str, value: &str)
    ensures
        row_views(final(rows)@) == row_put(row_views(old(rows)@), key@, value@),
{
    let at: usize = find_row(rows, key);
    let ghost before = row_views(rows@);
    let row = Row { key: key.to_owned(), value: value.to_owned() };
    if at < rows.len() {
        rows.set(at, row);
        assert(row_views(rows@) =~= before.update(at as int, (key@, value@)));
    } else {
        rows.push(row);
        assert(row_views(rows@) =~= before.push((key@, value@)));
    }
}

fn remove_row(rows: &mut Vec<Row>, key: &str)
    ensures
        row_views(final(rows)@) == row_removed(row_views(old(rows)@), key@),
{
    let at: usize = find_row(rows, key);
    let ghost before = row_views(rows@);
    if at < rows.len() {
        rows.remove(at);
        assert(row_views(rows@) =~= before.remove(at as int));
    }
}

/// What is kept.
pub struct TablesView {
    pub selected: Seq<(Seq<char>, Seq<char>)>,
    pub ip_to_host: Seq<(Seq<char>, Seq<char>)>,
    pub host_to_ip: Seq<(Seq<char>, Seq<char>)>,
}

impl TablesView {
    /// One of the tables.
    pub open spec fn table(&self, table: Table) -> Seq<(Seq<char>, Seq<char>)> {
        match table {
            Table::Selected => self.selected,
            Table::IpToHost => self.ip_to_host,
            Table::HostToIp => self.host_to_ip,
        }
    }

    /// One of the tables is another one.
    pub open spec fn with_table(&self, table: Table, rows: Seq<(Seq<char>, Seq<char>)>) -> TablesView {
        match table {
            Table::Selected => TablesView { selected: rows, ..*self },
            Table::IpToHost => TablesView { ip_to_host: rows, ..*self },
            Table::HostToIp => TablesView { host_to_ip: rows, ..*self },
        }
    }

    /// The tables once a change was made.
    pub open spec fn written(&self, w: WriteView) -> TablesView {
        match w {
            WriteView::Put(table, key, value) => self.with_table(
                table,
                row_put(self.table(table), key, value),
            ),
            WriteView::Remove(table, key) => self.with_table(
                table,
                row_removed(self.table(table), key),
            ),
        }
    }

    /// The tables once the first `n` changes were made.
    pub open spec fn all_written(&self, list: Seq<WriteView>, n: int) -> TablesView
        decreases n,
    {
        if n <= 0 {
            *self
        } else {
            self.all_written(list, n - 1).written(list[n - 1])
        }
    }

    /// In every table each key occurs once.
    pub open spec fn wf(&self) -> bool {
        keys_once(self.selected) && keys_once(self.ip_to_host) && keys_once(self.host_to_ip)
    }
}

/// The changes that keep which proxy a group uses, where that is kept.
pub open spec fn select_writes(kept: bool, group: Seq<char>, server: Seq<char>) -> Seq<WriteView> {
    if kept {
        seq![WriteView::Put(Table::Selected, group, server)]
    } else {
        Seq::empty()
    }
}

/// Which proxy a group uses, where that is kept.
pub open spec fn selection(kept: bool, tables: TablesView, group: Seq<char>) -> Option<Seq<char>> {
    if kept {
        row_value(tables.selected, group)
    } else {
        None
    }
}

/// What stands for an address or a host: the host of an address first, then the address of a
/// host.
pub open spec fn fake_value(tables: TablesView, key: Seq<char>) -> Option<Seq<char>> {
    match row_value(tables.ip_to_host, key) {
        Some(host) => Some(host),
        None => row_value(tables.host_to_ip, key),
    }
}

/// The changes that put the first `n` pairs in: an address and its host, and the host's key and
/// its address.
pub open spec fn put_writes(puts: Seq<(String, String, String)>, n: int) -> Seq<WriteView>
    decreases n,
{
    if n <= 0 {
        Seq::empty()
    } else {
        let (ip, host, host_key) = puts[n - 1];
        put_writes(puts, n - 1).push(WriteView::Put(Table::IpToHost, ip@, host@)).push(
            WriteView::Put(Table::HostToIp, host_key@, ip@),
        )
    }
}

/// The changes that take the first `n` addresses out, and their hosts' keys where they are known.
pub open spec fn delete_writes(deletes: Seq<(String, Option<String>)>, n: int) -> Seq<WriteView>
    decreases n,
{
    if n <= 0 {
        Seq::empty()
    } else {
        let (ip, host_key) = deletes[n - 1];
        let before = delete_writes(deletes, n - 1).push(WriteView::Remove(Table::IpToHost, ip@));
        match host_key {
            Some(key) => before.push(WriteView::Remove(Table::HostToIp, key@)),
            None => before,
        }
    }
}

/// A value of an old file: its text, where it is one.
#[derive(Debug)]
pub struct LegacyRow {
    pub key: String,
    pub value: Option<String>,
}

/// A value of an old file.
pub open spec fn legacy_row_view(row: LegacyRow) -> (Seq<char>, Option<Seq<char>>) {
    (row.key@, text::opt_view(row.value))
}

/// The values of a table of an old file.
pub open spec fn legacy_row_views(rows: Seq<LegacyRow>) -> Seq<(Seq<char>, Option<Seq<char>>)> {
    rows.map_values(|r: LegacyRow| legacy_row_view(r))
}

/// A member of an old file: its values, where it has some.
#[derive(Debug)]
pub struct LegacyTable {
    pub name: String,
    pub rows: Option<Vec<LegacyRow>>,
}

/// A member of an old file.
pub open spec fn legacy_table_view(table: LegacyTable) -> (
    Seq<char>,
    Option<Seq<(Seq<char>, Option<Seq<char>>)>>,
) {
    (
        table.name@,
        match table.rows {
            Some(rows) => Some(legacy_row_views(rows@)),
            None => None,
        },
    )
}

/// The members of an old file.
pub open spec fn legacy_table_views(tables: Seq<LegacyTable>) -> Seq<
    (Seq<char>, Option<Seq<(Seq<char>, Option<Seq<char>>)>>),
> {
    tables.map_values(|t: LegacyTable| legacy_table_view(t))
}

/// The members of an old file, if it is one.
pub open spec fn opt_tables(tables: Option<Vec<LegacyTable>>) -> Option<
    Seq<(Seq<char>, Option<Seq<(Seq<char>, Option<Seq<char>>)>>)>,
> {
    match tables {
        Some(list) => Some(legacy_table_views(list@)),
        None => None,
    }
}

/// What the `serde_yaml` crate reads a text as, as a value of the `serde_json` crate: `None` where
/// it is no YAML, else the members of the mapping that it is, and none where it is something else.
/// A member that is a mapping has its values, each with its text where it is one.
pub uninterp spec fn yaml_tables(s: Seq<char>) -> Option<Seq<(Seq<char>, Option<Seq<(Seq<char>, Option<Seq<char>>)>>)>>;

/// `serde_yaml::from_str` into a `serde_json::Value`, with its `as_object` and `as_str`: what a
/// text is read as depends on the text alone.
#[verifier::external_body]
pub(crate) fn parse_legacy(content: &str) -> (res: Option<Vec<LegacyTable>>)
    ensures
        opt_tables(res) == yaml_tables(content@),
{
    let value: serde_json::Value = serde_yaml::from_str(content).ok()?;
    let rows = |table: &serde_json::Map<String, serde_json::Value>| {
        table
            .iter()
            .map(|row| LegacyRow { key: row.0.clone(), value: row.1.as_str().map(String::from) })
            .collect()
    };
    let members = value.as_object().into_iter().flatten();
    Some(members.map(|m| LegacyTable { name: m.0.clone(), rows: m.1.as_object().map(rows) }).collect())
}

/// The place of a member, from `from` on.
pub open spec fn member_place(
    tables: Seq<(Seq<char>, Option<Seq<(Seq<char>, Option<Seq<char>>)>>)>,
    name: Seq<char>,
    from: int,
) -> int
    decreases tables.len() - from,
{
    if from < 0 || from >= tables.len() || tables[from].0 == name {
        from
    } else {
        member_place(tables, name, from + 1)
    }
}

/// The values of a member. A member that is missing, or that is no mapping, has none.
pub open spec fn member_rows(
    tables: Seq<(Seq<char>, Option<Seq<(Seq<char>, Option<Seq<char>>)>>)>,
    name: Seq<char>,
) -> Seq<(Seq<char>, Option<Seq<char>>)> {
    let at = member_place(tables, name, 0);
    if at < tables.len() {
        match tables[at].1 {
            Some(rows) => rows,
            None => Seq::empty(),
        }
    } else {
        Seq::empty()
    }
}

fn copy_legacy_rows(rows: &Vec<LegacyRow>) -> (res: Vec<LegacyRow>)
    ensures
        legacy_row_views(res@) == legacy_row_views(rows@),
{
    let mut res: Vec<LegacyRow> = Vec::new();
    let mut i: usize = 0;
    assert(legacy_row_views(res@) =~= legacy_row_views(rows@).take(0));
    while i < rows.len()
        invariant
            i <= rows@.len(),
            legacy_row_views(res@) == legacy_row_views(rows@).take(i as int),
        decreases rows@.len() - i,
    {
        let ghost before = legacy_row_views(res@);
        res.push(LegacyRow { key: rows[i].key.clone(), value: text::copy_opt(&rows[i].value) });
        assert(legacy_row_views(res@) =~= before.push(legacy_row_views(rows@)[i as int]));
        assert(legacy_row_views(rows@).take(i + 1) =~= legacy_row_views(rows@).take(i as int).push(
            legacy_row_views(rows@)[i as int],
        ));
        i = i + 1;
    }
    assert(legacy_row_views(rows@).take(i as int) =~= legacy_row_views(rows@));
    res
}

/// The values of a member of an old file.
pub fn legacy_rows(tables: &Vec<LegacyTable>, name: &str) -> (res: Vec<LegacyRow>)
    ensures
        legacy_row_views(res@) == member_rows(legacy_table_views(tables@), name@),
{
    let ghost all = legacy_table_views(tables@);
    let none: Vec<LegacyRow> = Vec::new();
    assert(legacy_row_views(none@) =~= Seq::empty());
    let mut i: usize = 0;
    while i < tables.len()
        invariant
            i <= tables@.len(),
            all == legacy_table_views(tables@),
            legacy_row_views(none@) == Seq::<(Seq<char>, Option<Seq<char>>)>::empty(),
            member_place(all, name@, 0) == member_place(all, name@, i as int),
        decreases tables@.len() - i,
    {
        assert(all[i as int] == legacy_table_view(tables@[i as int]));
        if text::same(tables[i].name.as_str(), name) {
            return match &tables[i].rows {
                Some(rows) => copy_legacy_rows(rows),
                None => none,
            };
        }
        i = i + 1;
    }
    none
}

/// The three tables of an old file.
#[derive(Debug)]
pub struct Legacy {
    pub selected: Vec<LegacyRow>,
    pub ip_to_host: Vec<LegacyRow>,
    pub host_to_ip: Vec<LegacyRow>,
}

impl Legacy {
    /// The tables are those of an old file with the members.
    pub open spec fn is_of(
        &self,
        tables: Seq<(Seq<char>, Option<Seq<(Seq<char>, Option<Seq<char>>)>>)>,
    ) -> bool {
        &&& legacy_row_views(self.selected@) == member_rows(tables, "selected"@)
        &&& legacy_row_views(self.ip_to_host@) == member_rows(tables, "ip_to_host"@)
        &&& legacy_row_views(self.host_to_ip@) == member_rows(tables, "host_to_ip"@)
    }
}

/// Picks the three tables out of the members of an old file.
pub fn pick_legacy(tables: &Vec<LegacyTable>) -> (res: Legacy)
    ensures
        res.is_of(legacy_table_views(tables@)),
{
    Legacy {
        selected: legacy_rows(tables, "selected"),
        ip_to_host: legacy_rows(tables, "ip_to_host"),
        host_to_ip: legacy_rows(tables, "host_to_ip"),
    }
}

/// Reads an old file; `None` where the text is none.
pub fn read_legacy(content: &str) -> (res: Option<Legacy>)
    ensures
        match (res, yaml_tables(content@)) {
            (Some(legacy), Some(tables)) => legacy.is_of(tables),
            (None, None) => true,
            _ => false,
        },
{
    match parse_legacy(content) {
        Some(tables) => Some(pick_legacy(&tables)),
        None => None,
    }
}

/// The changes that bring the first `n` values of an old file into a table; those that are no text
/// are left out.
pub open spec fn legacy_writes(
    table: Table,
    rows: Seq<(Seq<char>, Option<Seq<char>>)>,
    n: int,
) -> Seq<WriteView>
    decreases n,
{
    if n <= 0 {
        Seq::empty()
    } else {
        match rows[n - 1].1 {
            Some(value) => legacy_writes(table, rows, n - 1).push(
                WriteView::Put(table, rows[n - 1].0, value),
            ),
            None => legacy_writes(table, rows, n - 1),
        }
    }
}

/// What is kept across runs, as the database holds it. The methods that change something give back
/// the changes; once the database has them, they are committed here.
pub struct ThreadSafeCacheFile {
    store_selected: bool,
    selected: Vec<Row>,
    ip_to_host: Vec<Row>,
    host_to_ip: Vec<Row>,
}

impl View for ThreadSafeCacheFile {
    type V = TablesView;

    closed spec fn view(&self) -> TablesView {
        TablesView {
            selected: row_views(self.selected@),
            ip_to_host: row_views(self.ip_to_host@),
            host_to_ip: row_views(self.host_to_ip@),
        }
    }
}

impl ThreadSafeCacheFile {
    /// Which proxy each group uses is kept.
    pub closed spec fn keeps_selected(&self) -> bool {
        self.store_selected
    }

    /// What the database holds.
    pub fn new(
        store_selected: bool,
        selected: Vec<Row>,
        ip_to_host: Vec<Row>,
        host_to_ip: Vec<Row>,
    ) -> (res: ThreadSafeCacheFile)
        ensures
            res.keeps_selected() == store_selected,
            res@.selected == row_views(selected@),
            res@.ip_to_host == row_views(ip_to_host@),
            res@.host_to_ip == row_views(host_to_ip@),
    {
        ThreadSafeCacheFile { store_selected, selected, ip_to_host, host_to_ip }
    }

    /// Whether it is kept which proxy each group uses.
    pub fn store_selected(&self) -> (res: bool)
        ensures
            res == self.keeps_selected(),
    {
        self.store_selected
    }

    fn apply(&mut self, w: &TableWrite)
        ensures
            final(self)@ == old(self)@.written(w@),
            final(self).keeps_selected() == old(self).keeps_selected(),
    {
        match w {
            TableWrite::Put(table, key, value) => match table {
                Table::Selected => put_row(&mut self.selected, key.as_str(), value.as_str()),
                Table::IpToHost => put_row(&mut self.ip_to_host, key.as_str(), value.as_str()),
                Table::HostToIp => put_row(&mut self.host_to_ip, key.as_str(), value.as_str()),
            },
            TableWrite::Remove(table, key) => match table {
                Table::Selected => remove_row(&mut self.selected, key.as_str()),
                Table::IpToHost => remove_row(&mut self.ip_to_host, key.as_str()),
                Table::HostToIp => remove_row(&mut self.host_to_ip, key.as_str()),
            },
        }
    }

    /// Takes in changes that the database has.
    pub fn commit(&mut self, list: &Vec<TableWrite>)
        ensures
            final(self)@ == old(self)@.all_written(write_views(list@), list@.len() as int),
            final(self).keeps_selected() == old(self).keeps_selected(),
    {
        let ghost all = write_views(list@);
        let mut i: usize = 0;
        while i < list.len()
            invariant
                i <= list@.len(),
                all == write_views(list@),
                self@ == old(self)@.all_written(all, i as int),
                self.keeps_selected() == old(self).keeps_selected(),
            decreases list@.len() - i,
        {
            assert(all[i as int] == list@[i as int]@);
            self.apply(&list[i]);
            i = i + 1;
        }
    }

    /// The changes that keep which proxy a group uses.
    pub fn set_selected(&self, group: &str, server: &str) -> (res: Vec<TableWrite>)
        ensures
            write_views(res@) == select_writes(self.keeps_selected(), group@, server@),
    {
        let mut writes: Vec<TableWrite> = Vec::new();
        if self.store_selected {
            writes.push(TableWrite::Put(Table::Selected, group.to_owned(), server.to_owned()));
        }
        assert(write_views(writes@) =~= if self.keeps_selected() {
            seq![WriteView::Put(Table::Selected, group@, server@)]
        } else {
            Seq::empty()
        });
        writes
    }

    /// Which proxy a group uses.
    pub fn get_selected(&self, group: &str) -> (res: Option<String>)
        ensures
            text::opt_view(res) == selection(self.keeps_selected(), self@, group@),
    {
        if !self.store_selected {
            return None;
        }
        get_row(&self.selected, group)
    }

    fn copy_rows(rows: &Vec<Row>) -> (res: Vec<Row>)
        ensures
            row_views(res@) == row_views(rows@),
    {
        let mut res: Vec<Row> = Vec::new();
        let mut i: usize = 0;
        assert(row_views(res@) =~= row_views(rows@).take(0));
        while i < rows.len()
            invariant
                i <= rows@.len(),
                row_views(res@) == row_views(rows@).take(i as int),
            decreases rows@.len() - i,
        {
            let ghost before = row_views(res@);
            res.push(Row { key: rows[i].key.clone(), value: rows[i].value.clone() });
            assert(row_views(res@) =~= before.push(row_views(rows@)[i as int]));
            assert(row_views(rows@).take(i + 1) =~= row_views(rows@).take(i as int).push(
                row_views(rows@)[i as int],
            ));
            i = i + 1;
        }
        assert(row_views(rows@).take(i as int) =~= row_views(rows@));
        res
    }

    /// Which proxy each group uses.
    pub fn get_selected_map(&self) -> (res: Vec<Row>)
        ensures
            row_views(res@) == if self.keeps_selected() {
                self@.selected
            } else {
                Seq::empty()
            },
    {
        if !self.store_selected {
            let none: Vec<Row> = Vec::new();
            assert(row_views(none@) =~= Seq::empty());
            return none;
        }
        Self::copy_rows(&self.selected)
    }

    /// The changes that keep the host of an address.
    pub fn set_ip_to_host(&self, ip: &str, host: &str) -> (res: Vec<TableWrite>)
        ensures
            write_views(res@) == seq![WriteView::Put(Table::IpToHost, ip@, host@)],
    {
        let mut writes: Vec<TableWrite> = Vec::new();
        writes.push(TableWrite::Put(Table::IpToHost, ip.to_owned(), host.to_owned()));
        assert(write_views(writes@) =~= seq![WriteView::Put(Table::IpToHost, ip@, host@)]);
        writes
    }

    /// The changes that keep the address of a host.
    pub fn set_host_to_ip(&self, host: &str, ip: &str) -> (res: Vec<TableWrite>)
        ensures
            write_views(res@) == seq![WriteView::Put(Table::HostToIp, host@, ip@)],
    {
        let mut writes: Vec<TableWrite> = Vec::new();
        writes.push(TableWrite::Put(Table::HostToIp, host.to_owned(), ip.to_owned()));
        assert(write_views(writes@) =~= seq![WriteView::Put(Table::HostToIp, host@, ip@)]);
        writes
    }

    /// What stands for an address or a host.
    pub fn get_fake_ip(&self, ip_or_host: &str) -> (res: Option<String>)
        ensures
            text::opt_view(res) == fake_value(self@, ip_or_host@),
    {
        match get_row(&self.ip_to_host, ip_or_host) {
            Some(host) => Some(host),
            None => get_row(&self.host_to_ip, ip_or_host),
        }
    }

    /// The changes that take an address and a host out.
    pub fn delete_fake_ip_pair(&self, ip: &str, host: &str) -> (res: Vec<TableWrite>)
        ensures
            write_views(res@) == seq![
                WriteView::Remove(Table::IpToHost, ip@),
                WriteView::Remove(Table::HostToIp, host@),
            ],
    {
        let mut writes: Vec<TableWrite> = Vec::new();
        writes.push(TableWrite::Remove(Table::IpToHost, ip.to_owned()));
        writes.push(TableWrite::Remove(Table::HostToIp, host.to_owned()));
        assert(write_views(writes@) =~= seq![
            WriteView::Remove(Table::IpToHost, ip@),
            WriteView::Remove(Table::HostToIp, host@),
        ]);
        writes
    }

    /// The addresses of hosts and the hosts of addresses.
    pub fn get_fake_ip_tables(&self) -> (res: (Vec<Row>, Vec<Row>))
        ensures
            row_views(res.0@) == self@.host_to_ip,
            row_views(res.1@) == self@.ip_to_host,
    {
        (Self::copy_rows(&self.host_to_ip), Self::copy_rows(&self.ip_to_host))
    }

    /// The changes that put pairs in, then take addresses out.
    pub fn apply_fake_ip_batch(
        &self,
        puts: &Vec<(String, String, String)>,
        deletes: &Vec<(String, Option<String>)>,
    ) -> (res: Vec<TableWrite>)
        ensures
            write_views(res@) == put_writes(puts@, puts@.len() as int) + delete_writes(
                deletes@,
                deletes@.len() as int,
            ),
    {
        let mut writes: Vec<TableWrite> = Vec::new();
        assert(write_views(writes@) =~= Seq::empty());
        let mut i: usize = 0;
        while i < puts.len()
            invariant
                i <= puts@.len(),
                write_views(writes@) == put_writes(puts@, i as int),
            decreases puts@.len() - i,
        {
            let ghost before = write_views(writes@);
            let item = &puts[i];
            writes.push(TableWrite::Put(Table::IpToHost, item.0.clone(), item.1.clone()));
            writes.push(TableWrite::Put(Table::HostToIp, item.2.clone(), item.0.clone()));
            assert(write_views(writes@) =~= before.push(
                WriteView::Put(Table::IpToHost, item.0@, item.1@),
            ).push(WriteView::Put(Table::HostToIp, item.2@, item.0@)));
            i = i + 1;
        }
        let ghost start = write_views(writes@);
        let mut k: usize = 0;
        assert(start + delete_writes(deletes@, 0) =~= start);
        while k < deletes.len()
            invariant
                k <= deletes@.len(),
                write_views(writes@) == start + delete_writes(deletes@, k as int),
            decreases deletes@.len() - k,
        {
            let ghost before = write_views(writes@);
            let item = &deletes[k];
            writes.push(TableWrite::Remove(Table::IpToHost, item.0.clone()));
            assert(write_views(writes@) =~= before.push(
                WriteView::Remove(Table::IpToHost, item.0@),
            ));
            if let Some(key) = &item.1 {
                let ghost middle = write_views(writes@);
                writes.push(TableWrite::Remove(Table::HostToIp, key.clone()));
                assert(write_views(writes@) =~= middle.push(
                    WriteView::Remove(Table::HostToIp, key@),
                ));
            }
            assert(write_views(writes@) =~= start + delete_writes(deletes@, k + 1));
            k = k + 1;
        }
        writes
    }

    fn migrate_table(writes: &mut Vec<TableWrite>, table: Table, rows: &Vec<LegacyRow>)
        ensures
            write_views(final(writes)@) == write_views(old(writes)@) + legacy_writes(
                table,
                legacy_row_views(rows@),
                rows@.len() as int,
            ),
    {
        let ghost start = write_views(writes@);
        let ghost all = legacy_row_views(rows@);
        let mut i: usize = 0;
        assert(start + legacy_writes(table, all, 0) =~= start);
        while i < rows.len()
            invariant
                i <= rows@.len(),
                all == legacy_row_views(rows@),
                write_views(writes@) == start + legacy_writes(table, all, i as int),
            decreases rows@.len() - i,
        {
            assert(all[i as int] == legacy_row_view(rows@[i as int]));
            let ghost before = write_views(writes@);
            if let Some(value) = &rows[i].value {
                writes.push(TableWrite::Put(table, rows[i].key.clone(), value.clone()));
                assert(write_views(writes@) =~= before.push(
                    WriteView::Put(table, rows@[i as int].key@, value@),
                ));
            }
            assert(write_views(writes@) =~= start + legacy_writes(table, all, i + 1));
            i = i + 1;
        }
    }

    /// The changes that bring the tables of an old file in.
    pub fn migrate_legacy(legacy: &Legacy) -> (res: Vec<TableWrite>)
        ensures
            write_views(res@) == migrated(
                legacy_row_views(legacy.selected@),
                legacy_row_views(legacy.ip_to_host@),
                legacy_row_views(legacy.host_to_ip@),
            ),
    {
        let mut writes: Vec<TableWrite> = Vec::new();
        let ghost selected = legacy_row_views(legacy.selected@);
        assert(write_views(writes@) =~= Seq::empty());
        Self::migrate_table(&mut writes, Table::Selected, &legacy.selected);
        assert(write_views(writes@) =~= legacy_writes(
            Table::Selected,
            selected,
            selected.len() as int,
        ));
        Self::migrate_table(&mut writes, Table::IpToHost, &legacy.ip_to_host);
        Self::migrate_table(&mut writes, Table::HostToIp, &legacy.host_to_ip);
        writes
    }
}

/// The changes that bring the tables of an old file in.
pub open spec fn migrated(
    selected: Seq<(Seq<char>, Option<Seq<char>>)>,
    ip_to_host: Seq<(Seq<char>, Option<Seq<char>>)>,
    host_to_ip: Seq<(Seq<char>, Option<Seq<char>>)>,
) -> Seq<WriteView> {
    legacy_writes(Table::Selected, selected, selected.len() as int) + legacy_writes(
        Table::IpToHost,
        ip_to_host,
        ip_to_host.len() as int,
    ) + legacy_writes(Table::HostToIp, host_to_ip, host_to_ip.len() as int)
}

/// How opening the database went.
#[derive(Clone, Copy, Debug, PartialEq, Eq, Structural)]
pub enum OpenOutcome {
    Opened,
    AlreadyOpen,
    Failed,
}

/// What is to be done to have a database.
#[derive(Debug)]
pub enum OpenPlan {
    /// Make a new one.
    Create,
    /// Use the one that is there.
    Use,
    /// Move the file out of the way, make a new one and bring in what the file holds.
    Migrate(Legacy),
    /// Move the file out of the way and make a new one.
    Reset,
}

/// The plan is the one after opening went so; `outcome` is `None` where there is no file, and
/// `tables` are the members of the file where it is an old one.
pub open spec fn is_plan(
    plan: OpenPlan,
    outcome: Option<OpenOutcome>,
    tables: Option<Seq<(Seq<char>, Option<Seq<(Seq<char>, Option<Seq<char>>)>>)>>,
) -> bool {
    match outcome {
        None => plan is Create,
        Some(OpenOutcome::Opened) => plan is Use,
        Some(OpenOutcome::AlreadyOpen) => plan is Reset,
        Some(OpenOutcome::Failed) => match tables {
            Some(tables) => plan matches OpenPlan::Migrate(legacy) && legacy.is_of(tables),
            None => plan is Reset,
        },
    }
}

/// What is to be done to have a database, given the members of the file where it is an old one.
pub fn plan_opening(outcome: Option<OpenOutcome>, tables: Option<Vec<LegacyTable>>) -> (res: OpenPlan)
    ensures
        is_plan(res, outcome, opt_tables(tables)),
{
    match outcome {
        None => OpenPlan::Create,
        Some(OpenOutcome::Opened) => OpenPlan::Use,
        Some(OpenOutcome::AlreadyOpen) => OpenPlan::Reset,
        Some(OpenOutcome::Failed) => match tables {
            Some(tables) => OpenPlan::Migrate(pick_legacy(&tables)),
            None => OpenPlan::Reset,
        },
    }
}

/// What is to be done to have a database: `outcome` is `None` where there is no file, and `content`
/// is the text of the file, where it is one. A file that is no database and that reads as YAML is
/// an old one.
pub fn open_or_init_db(outcome: Option<OpenOutcome>, content: Option<&str>) -> (res: OpenPlan)
    ensures
        is_plan(
            res,
            outcome,
            match content {
                Some(s) => yaml_tables(s@),
                None => None,
            },
        ),
{
    match (outcome, content) {
        (Some(OpenOutcome::Failed), Some(s)) => plan_opening(outcome, parse_legacy(s)),
        _ => plan_opening(outcome, None),
    }
}

/// Where a file of the old format is moved to.
pub fn backup_path(path: &str) -> (res: String)
    ensures
        res@ == path@ + ".legacy-yaml"@,
{
    text::concat(path, ".legacy-yaml")
}

/// Where a file that cannot be used is moved to, at a time in seconds since 1970.
pub fn reset_corrupt_db(path: &str, secs: u64) -> (res: String)
    ensures
        res@ == path@ + ".corrupt-"@ + text::number_text(secs as nat),
{
    let mut out: Vec<char> = text::chars(path);
    text::append(&mut out, &text::chars(".corrupt-"));
    text::append(&mut out, &text::write_number(secs));
    text::text(&out)
}

proof fn lemma_row_place(rows: Seq<(Seq<char>, Seq<char>)>, key: Seq<char>, from: int)
    requires
        0 <= from <= rows.len(),
    ensures
        from <= row_place(rows, key, from) <= rows.len(),
        row_place(rows, key, from) < rows.len() ==> rows[row_place(rows, key, from)].0 == key,
        forall|i: int| from <= i < row_place(rows, key, from) ==> (#[trigger] rows[i]).0 != key,
    decreases rows.len() - from,
{
    if from < rows.len() && rows[from].0 != key {
        lemma_row_place(rows, key, from + 1);
    }
}

proof fn lemma_row_at(rows: Seq<(Seq<char>, Seq<char>)>, key: Seq<char>, from: int, at: int)
    requires
        0 <= from <= at < rows.len(),
        rows[at].0 == key,
        forall|i: int| from <= i < at ==> (#[trigger] rows[i]).0 != key,
    ensures
        row_place(rows, key, from) == at,
    decreases at - from,
{
    if from < at {
        assert(rows[from].0 != key);
        lemma_row_at(rows, key, from + 1, at);
    }
}

proof fn lemma_row_absent(rows: Seq<(Seq<char>, Seq<char>)>, key: Seq<char>, from: int)
    requires
        0 <= from <= rows.len(),
        forall|i: int| from <= i < rows.len() ==> (#[trigger] rows[i]).0 != key,
    ensures
        row_place(rows, key, from) == rows.len(),
    decreases rows.len() - from,
{
    if from < rows.len() {
        assert(rows[from].0 != key);
        lemma_row_absent(rows, key, from + 1);
    }
}

/// What was put in under a key is read back, and every other key reads as before.
pub proof fn law_put_read_back(
    rows: Seq<(Seq<char>, Seq<char>)>,
    key: Seq<char>,
    value: Seq<char>,
    other: Seq<char>,
)
    requires
        other != key,
    ensures
        row_value(row_put(rows, key, value), key) == Some(value),
        row_value(row_put(rows, key, value), other) == row_value(rows, other),
{
    lemma_row_place(rows, key, 0);
    lemma_row_place(rows, other, 0);
    let after = row_put(rows, key, value);
    let at = row_place(rows, key, 0);
    assert forall|i: int| 0 <= i < at implies (#[trigger] after[i]).0 != key by {
        assert(after[i] == rows[i]);
    }
    lemma_row_at(after, key, 0, at);
    let o = row_place(rows, other, 0);
    assert forall|i: int| 0 <= i < o implies (#[trigger] after[i]).0 != other by {
        if i != at {
            assert(after[i] == rows[i]);
        }
    }
    if o < rows.len() {
        lemma_row_at(after, other, 0, o);
    } else {
        lemma_row_absent(after, other, 0);
    }
}

/// What was taken out is not read any more, and every other key reads as before.
pub proof fn law_removed_is_gone(
    rows: Seq<(Seq<char>, Seq<char>)>,
    key: Seq<char>,
    other: Seq<char>,
)
    requires
        keys_once(rows),
        other != key,
    ensures
        row_value(row_removed(rows, key), key) is None,
        row_value(row_removed(rows, key), other) == row_value(rows, other),
{
    lemma_row_place(rows, key, 0);
    lemma_row_place(rows, other, 0);
    let at = row_place(rows, key, 0);
    let after = row_removed(rows, key);
    let o = row_place(rows, other, 0);
    if at < rows.len() {
        assert forall|i: int| 0 <= i < after.len() implies (#[trigger] after[i]).0 != key by {
            if i < at {
                assert(after[i] == rows[i]);
            } else {
                assert(after[i] == rows[i + 1]);
                assert(rows[at].0 != rows[i + 1].0);
            }
        }
        let new_o = if o < at {
            o
        } else {
            o - 1
        };
        assert forall|i: int| 0 <= i < new_o implies (#[trigger] after[i]).0 != other by {
            if i < at {
                assert(after[i] == rows[i]);
            } else {
                assert(after[i] == rows[i + 1]);
            }
        }
        if o < rows.len() {
            assert(after[new_o] == rows[o]);
            lemma_row_at(after, other, 0, new_o);
        } else {
            lemma_row_absent(after, other, 0);
        }
    }
    lemma_row_absent(after, key, 0);
}

proof fn lemma_put_once(rows: Seq<(Seq<char>, Seq<char>)>, key: Seq<char>, value: Seq<char>)
    requires
        keys_once(rows),
    ensures
        keys_once(row_put(rows, key, value)),
{
    lemma_row_place(rows, key, 0);
    let at = row_place(rows, key, 0);
    let after = row_put(rows, key, value);
    assert forall|i: int, j: int| 0 <= i < j < after.len() implies (#[trigger] after[i]).0 != (
    #[trigger] after[j]).0 by {
        if i < rows.len() && j < rows.len() {
            assert(rows[i].0 != rows[j].0);
        }
    }
}

proof fn lemma_removed_once(rows: Seq<(Seq<char>, Seq<char>)>, key: Seq<char>)
    requires
        keys_once(rows),
    ensures
        keys_once(row_removed(rows, key)),
{
    lemma_row_place(rows, key, 0);
    let at = row_place(rows, key, 0);
    let after = row_removed(rows, key);
    assert forall|i: int, j: int| 0 <= i < j < after.len() implies (#[trigger] after[i]).0 != (
    #[trigger] after[j]).0 by {
        if at < rows.len() {
            let x = if i < at {
                i
            } else {
                i + 1
            };
            let y = if j < at {
                j
            } else {
                j + 1
            };
            assert(after[i] == rows[x] && after[j] == rows[y]);
            assert(rows[x].0 != rows[y].0);
        }
    }
}

/// Setting a key that is not there adds a row.
pub proof fn lemma_put_new(rows: Seq<(Seq<char>, Seq<char>)>, key: Seq<char>, value: Seq<char>)
    requires
        forall|i: int| 0 <= i < rows.len() ==> (#[trigger] rows[i]).0 != key,
    ensures
        row_put(rows, key, value) == rows.push((key, value)),
{
    lemma_row_absent(rows, key, 0);
}

/// Tables without rows.
pub open spec fn no_rows() -> TablesView {
    TablesView { selected: Seq::empty(), ip_to_host: Seq::empty(), host_to_ip: Seq::empty() }
}

/// Putting pairs with different addresses and hosts' keys into tables without rows gives the rows
/// of the pairs, in their order.
pub proof fn law_puts_are_rows(puts: Seq<(String, String, String)>, n: int)
    requires
        0 <= n <= puts.len(),
        forall|i: int, j: int|
            0 <= i < j < puts.len() ==> (#[trigger] puts[i]).0@ != (#[trigger] puts[j]).0@
                && puts[i].2@ != puts[j].2@,
    ensures
        ({
            let writes = put_writes(puts, n);
            let after = no_rows().all_written(writes, writes.len() as int);
            &&& after.ip_to_host == Seq::new(n as nat, |i: int| (puts[i].0@, puts[i].1@))
            &&& after.host_to_ip == Seq::new(n as nat, |i: int| (puts[i].2@, puts[i].0@))
            &&& after.selected.len() == 0
        }),
    decreases n,
{
    let writes = put_writes(puts, n);
    if n > 0 {
        law_puts_are_rows(puts, n - 1);
        let fewer = put_writes(puts, n - 1);
        let (ip, host, host_key) = puts[n - 1];
        let before = no_rows().all_written(fewer, fewer.len() as int);
        let m = fewer.len() as int;
        lemma_written_agree(no_rows(), writes, fewer, m);
        let one = before.written(WriteView::Put(Table::IpToHost, ip@, host@));
        assert(no_rows().all_written(writes, m + 1) == one);
        assert(no_rows().all_written(writes, m + 2) == one.written(
            WriteView::Put(Table::HostToIp, host_key@, ip@),
        ));
        assert forall|i: int| 0 <= i < before.ip_to_host.len() implies (
        #[trigger] before.ip_to_host[i]).0 != ip@ by {
            assert(puts[i].0@ != puts[n - 1].0@);
        }
        assert forall|i: int| 0 <= i < before.host_to_ip.len() implies (
        #[trigger] before.host_to_ip[i]).0 != host_key@ by {
            assert(puts[i].2@ != puts[n - 1].2@);
        }
        lemma_put_new(before.ip_to_host, ip@, host@);
        lemma_put_new(before.host_to_ip, host_key@, ip@);
        assert(one.written(WriteView::Put(Table::HostToIp, host_key@, ip@)).ip_to_host =~= Seq::new(
            n as nat,
            |i: int| (puts[i].0@, puts[i].1@),
        ));
        assert(one.written(WriteView::Put(Table::HostToIp, host_key@, ip@)).host_to_ip =~= Seq::new(
            n as nat,
            |i: int| (puts[i].2@, puts[i].0@),
        ));
    } else {
        assert(no_rows().ip_to_host =~= Seq::new(0, |i: int| (puts[i].0@, puts[i].1@)));
        assert(no_rows().host_to_ip =~= Seq::new(0, |i: int| (puts[i].2@, puts[i].0@)));
    }
}

/// What an old file holds for a key is read back once it was brought in, as long as no key of the
/// table occurs twice in the file.
pub proof fn law_migrated_is_read_back(
    rows: Seq<(Seq<char>, Option<Seq<char>>)>,
    n: int,
    tables: TablesView,
    table: Table,
    at: int,
)
    requires
        0 <= at < n <= rows.len(),
        rows[at].1 is Some,
        forall|i: int, j: int|
            0 <= i < j < rows.len() ==> (#[trigger] rows[i]).0 != (#[trigger] rows[j]).0,
    ensures
        ({
            let writes = legacy_writes(table, rows, n);
            row_value(tables.all_written(writes, writes.len() as int).table(table), rows[at].0)
                == rows[at].1
        }),
    decreases n,
{
    let writes = legacy_writes(table, rows, n);
    let fewer = legacy_writes(table, rows, n - 1);
    if rows[n - 1].1 is Some {
        let key = rows[n - 1].0;
        let value = rows[n - 1].1.unwrap();
        let before = tables.all_written(fewer, fewer.len() as int);
        lemma_written_agree(tables, writes, fewer, fewer.len() as int);
        assert(tables.all_written(writes, writes.len() as int) == before.written(
            WriteView::Put(table, key, value),
        ));
        if at < n - 1 {
            law_migrated_is_read_back(rows, n - 1, tables, table, at);
            law_put_read_back(before.table(table), key, value, rows[at].0);
        } else {
            assert(key.push('x').len() != key.len());
            law_put_read_back(before.table(table), key, value, key.push('x'));
        }
    } else {
        law_migrated_is_read_back(rows, n - 1, tables, table, at);
    }
}

proof fn lemma_written_agree(tables: TablesView, a: Seq<WriteView>, b: Seq<WriteView>, n: int)
    requires
        n <= a.len(),
        n <= b.len(),
        forall|i: int| 0 <= i < n ==> a[i] == b[i],
    ensures
        tables.all_written(a, n) == tables.all_written(b, n),
    decreases n,
{
    if n > 0 {
        lemma_written_agree(tables, a, b, n - 1);
    }
}

/// Changes keep every key once.
pub proof fn law_writes_keep_keys(tables: TablesView, list: Seq<WriteView>, n: int)
    requires
        tables.wf(),
        0 <= n <= list.len(),
    ensures
        tables.all_written(list, n).wf(),
    decreases n,
{
    if n > 0 {
        law_writes_keep_keys(tables, list, n - 1);
        let before = tables.all_written(list, n - 1);
        match list[n - 1] {
            WriteView::Put(table, key, value) => {
                lemma_put_once(before.table(table), key, value);
            },
            WriteView::Remove(table, key) => {
                lemma_removed_once(before.table(table), key);
            },
        }
    }
}

/// The proxy that is chosen for a group is what the group uses from then on, and the other groups
/// keep theirs. Where choices are not kept, nothing is written and nothing is read.
pub proof fn law_chosen_is_used(
    tables: TablesView,
    group: Seq<char>,
    server: Seq<char>,
    other: Seq<char>,
)
    requires
        other != group,
    ensures
        ({
            let writes = select_writes(true, group, server);
            let after = tables.all_written(writes, writes.len() as int);
            &&& selection(true, after, group) == Some(server)
            &&& selection(true, after, other) == selection(true, tables, other)
            &&& after.ip_to_host == tables.ip_to_host
            &&& after.host_to_ip == tables.host_to_ip
        }),
        select_writes(false, group, server).len() == 0,
        selection(false, tables, group) is None,
{
    reveal_with_fuel(TablesView::all_written, 2);
    law_put_read_back(tables.selected, group, server, other);
}

/// A write changes its own table and no other.
pub proof fn law_tables_are_apart(tables: TablesView, w: WriteView, other: Table)
    requires
        match w {
            WriteView::Put(table, _, _) => table != other,
            WriteView::Remove(table, _) => table != other,
        },
    ensures
        tables.written(w).table(other) == tables.table(other),
{
}

/// An address is looked up among the addresses first, and what is none of them among the hosts.
pub proof fn law_fake_pair_is_found(
    tables: TablesView,
    ip: Seq<char>,
    host: Seq<char>,
    host_key: Seq<char>,
)
    requires
        host_key != ip,
    ensures
        ({
            let after = tables.written(WriteView::Put(Table::IpToHost, ip, host)).written(
                WriteView::Put(Table::HostToIp, host_key, ip),
            );
            &&& fake_value(after, ip) == Some(host)
            &&& row_value(tables.ip_to_host, host_key) is None ==> fake_value(after, host_key)
                == Some(ip)
        }),
{
    law_put_read_back(tables.ip_to_host, ip, host, host_key);
    law_put_read_back(tables.host_to_ip, host_key, ip, ip);
}

/// A pair that is taken away is found from neither side.
pub proof fn law_fake_pair_is_forgotten(tables: TablesView, ip: Seq<char>, host_key: Seq<char>)
    requires
        tables.wf(),
        host_key != ip,
    ensures
        ({
            let after = tables.written(WriteView::Remove(Table::IpToHost, ip)).written(
                WriteView::Remove(Table::HostToIp, host_key),
            );
            &&& row_value(after.ip_to_host, ip) is None
            &&& row_value(after.host_to_ip, host_key) is None
            &&& row_value(after.host_to_ip, ip) == row_value(tables.host_to_ip, ip)
        }),
{
    law_removed_is_gone(tables.ip_to_host, ip, host_key);
    law_removed_is_gone(tables.host_to_ip, host_key, ip);
}

/// A batch brings every pair in from both sides, in its order, and takes every pair out by its
/// address, and by its host where that is known.
pub proof fn law_batch_writes(
    puts: Seq<(String, String, String)>,
    deletes: Seq<(String, Option<String>)>,
    n: int,
    i: int,
)
    requires
        0 <= i < n,
    ensures
        n <= puts.len() ==> put_writes(puts, n).len() == 2 * n && put_writes(puts, n)[2 * i]
            == WriteView::Put(Table::IpToHost, puts[i].0@, puts[i].1@) && put_writes(puts, n)[2 * i
            + 1] == WriteView::Put(Table::HostToIp, puts[i].2@, puts[i].0@),
        n <= deletes.len() ==> delete_writes(deletes, n).contains(
            WriteView::Remove(Table::IpToHost, deletes[i].0@),
        ),
        n <= deletes.len() ==> (deletes[i].1 matches Some(key) ==> delete_writes(
            deletes,
            n,
        ).contains(WriteView::Remove(Table::HostToIp, key@))),
    decreases n,
{
    if n <= puts.len() {
        lemma_put_writes(puts, n, i);
    }
    if n <= deletes.len() {
        lemma_delete_writes(deletes, n, i);
    }
}

proof fn lemma_put_writes(puts: Seq<(String, String, String)>, n: int, i: int)
    requires
        0 <= n <= puts.len(),
    ensures
        put_writes(puts, n).len() == 2 * n,
        0 <= i < n ==> put_writes(puts, n)[2 * i] == WriteView::Put(
            Table::IpToHost,
            puts[i].0@,
            puts[i].1@,
        ),
        0 <= i < n ==> put_writes(puts, n)[2 * i + 1] == WriteView::Put(
            Table::HostToIp,
            puts[i].2@,
            puts[i].0@,
        ),
    decreases n,
{
    if n > 0 {
        lemma_put_writes(puts, n - 1, i);
    }
}

proof fn lemma_delete_writes(deletes: Seq<(String, Option<String>)>, n: int, i: int)
    requires
        0 <= i < n <= deletes.len(),
    ensures
        delete_writes(deletes, n).contains(WriteView::Remove(Table::IpToHost, deletes[i].0@)),
        deletes[i].1 matches Some(key) ==> delete_writes(deletes, n).contains(
            WriteView::Remove(Table::HostToIp, key@),
        ),
    decreases n,
{
    let before = delete_writes(deletes, n - 1);
    let after = delete_writes(deletes, n);
    let len = before.len() as int;
    assert(after[len] == WriteView::Remove(Table::IpToHost, deletes[n - 1].0@));
    if deletes[n - 1].1 is Some {
        assert(after[len + 1] == WriteView::Remove(
            Table::HostToIp,
            deletes[n - 1].1.unwrap()@,
        ));
    }
    if i < n - 1 {
        lemma_delete_writes(deletes, n - 1, i);
        assert forall|w: WriteView| before.contains(w) implies #[trigger] after.contains(w) by {
            let k = choose|k: int| 0 <= k < before.len() && before[k] == w;
            assert(after[k] == w);
        }
    }
}

/// A file that opens is used, and one that is open already or can be neither opened nor read is put
/// aside. Only what is written the old way is brought over, and all three of its tables are.
pub proof fn law_how_a_file_is_opened(
    plan: OpenPlan,
    outcome: Option<OpenOutcome>,
    tables: Option<Seq<(Seq<char>, Option<Seq<(Seq<char>, Option<Seq<char>>)>>)>>,
)
    requires
        is_plan(plan, outcome, tables),
    ensures
        plan is Create <==> outcome is None,
        plan is Use <==> outcome == Some(OpenOutcome::Opened),
        plan is Migrate <==> outcome == Some(OpenOutcome::Failed) && tables is Some,
        plan is Reset <==> outcome == Some(OpenOutcome::AlreadyOpen) || (outcome == Some(
            OpenOutcome::Failed,
        ) && tables is None),
        plan matches OpenPlan::Migrate(legacy) ==> legacy_row_views(legacy.selected@)
            == member_rows(tables.unwrap(), "selected"@) && legacy_row_views(legacy.ip_to_host@)
            == member_rows(tables.unwrap(), "ip_to_host"@) && legacy_row_views(legacy.host_to_ip@)
            == member_rows(tables.unwrap(), "host_to_ip"@),
{
}

/// The rows of a table are those under its name; a table that is not there, or is empty, has none.
pub proof fn law_rows_of_a_table(
    tables: Seq<(Seq<char>, Option<Seq<(Seq<char>, Option<Seq<char>>)>>)>,
    name: Seq<char>,
    i: int,
)
    requires
        0 <= i < tables.len(),
        forall|k: int| 0 <= k < i ==> (#[trigger] tables[k]).0 != name,
    ensures
        tables[i].0 == name ==> member_rows(tables, name) == (match tables[i].1 {
            Some(rows) => rows,
            None => Seq::empty(),
        }),
        i + 1 == tables.len() && tables[i].0 != name ==> member_rows(tables, name).len() == 0,
{
    lemma_member_place(tables, name, 0, i);
}

proof fn lemma_member_place(
    tables: Seq<(Seq<char>, Option<Seq<(Seq<char>, Option<Seq<char>>)>>)>,
    name: Seq<char>,
    from: int,
    i: int,
)
    requires
        0 <= from <= i < tables.len(),
        forall|k: int| from <= k < i ==> (#[trigger] tables[k]).0 != name,
    ensures
        tables[i].0 == name ==> member_place(tables, name, from) == i,
        i + 1 == tables.len() && tables[i].0 != name ==> member_place(tables, name, from)
            == tables.len(),
    decreases i - from,
{
    if from < i {
        assert(tables[from].0 != name);
        lemma_member_place(tables, name, from + 1, i);
    } else {
        reveal_with_fuel(member_place, 2);
    }
}

} // verus!
