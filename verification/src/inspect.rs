//! A human-readable dump of a world, for diagnostics: how many entities live
//! in it, which indices are free, where every living entity is stored, and
//! what the tables hold.
use crate::component::ErasedComponent;
use crate::decimal::{decimal_digits, push_digits};
use crate::entity::{Entity, EntityTableData};
use crate::table::{Table, TableView};
use crate::world::{World, WorldView};
use vstd::prelude::*;
use vstd::string::StringExecFns;

verus! {

/// The texts of `parts` one after the other, with `, ` between them.
pub open spec fn joined(parts: Seq<Seq<char>>) -> Seq<char>
    decreases parts.len(),
{
    if parts.len() == 0 {
        Seq::empty()
    } else if parts.len() == 1 {
        parts[0]
    } else {
        joined(parts.drop_last()) + ", "@ + parts.last()
    }
}

/// One part more is joined on behind a `, `, the first without one.
pub proof fn lemma_joined_next(parts: Seq<Seq<char>>, k: int)
    requires
        0 <= k < parts.len(),
    ensures
        joined(parts.take(k + 1)) == if k == 0 {
            parts[0]
        } else {
            joined(parts.take(k)) + ", "@ + parts[k]
        },
{
    let next = parts.take(k + 1);
    assert(next.drop_last() =~= parts.take(k));
    assert(next.last() == parts[k]);
    if k == 0 {
        assert(next[0] == parts[0]);
    }
}

/// The numbers of `values`, each in decimal.
pub open spec fn number_texts(values: Seq<usize>) -> Seq<Seq<char>> {
    Seq::new(values.len(), |k: int| decimal_digits(values[k] as nat))
}

/// The numbers of `values` as a list: `[3, 1, 4]`.
pub open spec fn list_text(values: Seq<usize>) -> Seq<char> {
    "["@ + joined(number_texts(values)) + "]"@
}

/// Appends the numbers of `values` as a list: `[3, 1, 4]`.
pub fn push_list(text: &mut String, values: &Vec<usize>)
    ensures
        final(text)@ == old(text)@ + list_text(values@),
{
    let ghost parts = number_texts(values@);
    text.append("[");
    let mut k: usize = 0;
    assert(parts.take(0) =~= Seq::empty());
    while k < values.len()
        invariant
            k <= values.len(),
            parts == number_texts(values@),
            text@ == old(text)@ + "["@ + joined(parts.take(k as int)),
        decreases values.len() - k,
    {
        proof {
            lemma_joined_next(parts, k as int);
        }
        if k > 0 {
            text.append(", ");
        }
        push_digits(text, values[k] as u64);
        k += 1;
        assert(text@ =~= old(text)@ + "["@ + joined(parts.take(k as int)));
    }
    assert(parts.take(k as int) =~= parts);
    text.append("]");
    assert(text@ =~= old(text)@ + list_text(values@));
}

/// The text of a handle: `Entity { index: 3, generation: 1 }`.
pub open spec fn entity_text(entity: Entity) -> Seq<char> {
    "Entity { index: "@ + decimal_digits(entity.index as nat) + ", generation: "@
        + decimal_digits(entity.generation as nat) + " }"@
}

/// Appends the text of a handle: `Entity { index: 3, generation: 1 }`.
pub fn push_entity(text: &mut String, entity: &Entity)
    ensures
        final(text)@ == old(text)@ + entity_text(*entity),
{
    text.append("Entity { index: ");
    push_digits(text, entity.index as u64);
    text.append(", generation: ");
    push_digits(text, entity.generation as u64);
    text.append(" }");
    assert(text@ =~= old(text)@ + entity_text(*entity));
}

/// The text of the entity slot of a row: `Some(..)` with the handle of the
/// entity that owns the row, or `None`.
pub open spec fn slot_text(slot: Option<Entity>) -> Seq<char> {
    match slot {
        Some(entity) => "Some("@ + entity_text(entity) + ")"@,
        None => "None"@,
    }
}

/// The texts of the entity slots of a table, row by row.
pub open spec fn slot_texts(entities: Seq<Option<Entity>>) -> Seq<Seq<char>> {
    Seq::new(entities.len(), |row: int| slot_text(entities[row]))
}

/// Appends the entity slots of `table`, with `, ` between them.
pub fn push_slots(text: &mut String, table: &Table)
    ensures
        final(text)@ == old(text)@ + joined(slot_texts(table@.entities)),
{
    let ghost parts = slot_texts(table@.entities);
    let rows = table.len();
    let mut row: usize = 0;
    assert(parts.take(0) =~= Seq::empty());
    assert(old(text)@ + Seq::<char>::empty() =~= old(text)@);
    while row < rows
        invariant
            row <= rows,
            rows == table@.entities.len(),
            parts == slot_texts(table@.entities),
            text@ == old(text)@ + joined(parts.take(row as int)),
        decreases rows - row,
    {
        proof {
            lemma_joined_next(parts, row as int);
        }
        if row > 0 {
            text.append(", ");
        }
        match table.entity_at(row) {
            Some(entity) => {
                text.append("Some(");
                push_entity(text, &entity);
                text.append(")");
            },
            None => {
                text.append("None");
            },
        }
        row += 1;
        assert(text@ =~= old(text)@ + joined(parts.take(row as int)));
    }
    assert(parts.take(row as int) =~= parts);
}

/// The text of a cell: `Some(..)` with the text of its component, or `None`.
pub open spec fn cell_text(cell: Option<String>) -> Seq<char> {
    match cell {
        Some(component) => "Some("@ + component@ + ")"@,
        None => "None"@,
    }
}

/// The texts of the cells of a column, row by row.
pub open spec fn cell_texts(cells: Seq<Option<String>>) -> Seq<Seq<char>> {
    Seq::new(cells.len(), |row: int| cell_text(cells[row]))
}

/// The text of a column slot: `Some([..])` with the cells of the column, or
/// `None` where the table has no such column.
pub open spec fn column_text(column: Option<Vec<Option<String>>>) -> Seq<char> {
    match column {
        Some(cells) => "Some(["@ + joined(cell_texts(cells@)) + "])"@,
        None => "None"@,
    }
}

/// Appends the text of a column slot.
pub fn push_column(text: &mut String, column: &Option<Vec<Option<String>>>)
    ensures
        final(text)@ == old(text)@ + column_text(*column),
{
    match column {
        Some(cells) => {
            let ghost parts = cell_texts(cells@);
            text.append("Some([");
            let mut row: usize = 0;
            assert(parts.take(0) =~= Seq::empty());
            while row < cells.len()
                invariant
                    row <= cells.len(),
                    parts == cell_texts(cells@),
                    text@ == old(text)@ + "Some(["@ + joined(parts.take(row as int)),
                decreases cells.len() - row,
            {
                proof {
                    lemma_joined_next(parts, row as int);
                }
                if row > 0 {
                    text.append(", ");
                }
                match &cells[row] {
                    Some(component) => {
                        text.append("Some(");
                        text.append(component.as_str());
                        text.append(")");
                    },
                    None => {
                        text.append("None");
                    },
                }
                row += 1;
                assert(text@ =~= old(text)@ + "Some(["@ + joined(parts.take(row as int)));
            }
            assert(parts.take(row as int) =~= parts);
            text.append("])");
            assert(text@ =~= old(text)@ + column_text(*column));
        },
        None => {
            text.append("None");
        },
    }
}

/// The texts of the column slots of a table, from the id 0 on.
pub open spec fn column_texts(columns: Seq<Option<Vec<Option<String>>>>) -> Seq<Seq<char>> {
    Seq::new(columns.len(), |c: int| column_text(columns[c]))
}

/// The text of a table: its component set, its column slots with
/// `descriptions` for the texts of the components, its entity slots, and its
/// free rows.
pub open spec fn table_text(table: TableView, descriptions: Seq<Option<Vec<Option<String>>>>) -> Seq<
    char,
> {
    "Table { component_set: "@ + list_text(table.component_set) + ", collumns: ["@ + joined(
        column_texts(descriptions),
    ) + "], entities: ["@ + joined(slot_texts(table.entities)) + "], removed: "@ + list_text(
        table.free_rows,
    ) + " }"@
}

/// Appends the text of `table`, with `descriptions` for the texts of its
/// components.
pub fn push_table(
    text: &mut String,
    table: &Table,
    descriptions: &Vec<Option<Vec<Option<String>>>>,
)
    ensures
        final(text)@ == old(text)@ + table_text(table@, descriptions@),
{
    let ghost parts = column_texts(descriptions@);
    text.append("Table { component_set: ");
    push_list(text, table.component_set());
    text.append(", collumns: [");
    let ghost head = text@;
    let mut c: usize = 0;
    assert(parts.take(0) =~= Seq::empty());
    assert(head + Seq::<char>::empty() =~= head);
    while c < descriptions.len()
        invariant
            c <= descriptions.len(),
            parts == column_texts(descriptions@),
            text@ == head + joined(parts.take(c as int)),
        decreases descriptions.len() - c,
    {
        proof {
            lemma_joined_next(parts, c as int);
        }
        if c > 0 {
            text.append(", ");
        }
        push_column(text, &descriptions[c]);
        c += 1;
        assert(text@ =~= head + joined(parts.take(c as int)));
    }
    assert(parts.take(c as int) =~= parts);
    text.append("], entities: [");
    push_slots(text, table);
    text.append("], removed: ");
    push_list(text, table.free_rows());
    text.append(" }");
    assert(text@ =~= old(text)@ + table_text(table@, descriptions@));
}

/// The texts of all tables, each behind an empty line, `descriptions`
/// holding the texts of the components table by table.
pub open spec fn tables_text(
    tables: Seq<TableView>,
    descriptions: Seq<Vec<Option<Vec<Option<String>>>>>,
) -> Seq<char>
    decreases tables.len(),
{
    if tables.len() == 0 {
        Seq::empty()
    } else {
        tables_text(tables.drop_last(), descriptions) + "\n\n"@ + table_text(
            tables.last(),
            descriptions[tables.len() - 1]@,
        )
    }
}

/// The line of a living entity: its entry of the index table, with the
/// component set of its table.
pub open spec fn location_text(entry: EntityTableData, component_set: Seq<usize>) -> Seq<char> {
    "\nEntityTableData { generation: "@ + decimal_digits(entry.generation as nat)
        + ", table_index: "@ + decimal_digits(entry.table_index as nat)
        + ", inner_table_index: "@ + decimal_digits(entry.inner_table_index as nat)
        + ", component_set: "@ + list_text(component_set) + " }"@
}

/// One line for every living entity, in the order of the slots.
pub open spec fn locations_text(entries: Seq<EntityTableData>, tables: Seq<TableView>) -> Seq<char>
    decreases entries.len(),
{
    if entries.len() == 0 {
        Seq::empty()
    } else if entries.last().live {
        locations_text(entries.drop_last(), tables) + location_text(
            entries.last(),
            tables[entries.last().table_index as int].component_set,
        )
    } else {
        locations_text(entries.drop_last(), tables)
    }
}

/// Appends one line for every living entity, in the order of the slots.
pub fn push_locations(text: &mut String, world: &World)
    requires
        world.wf(),
    ensures
        final(text)@ == old(text)@ + locations_text(world@.entries, world@.tables),
{
    let slots = world.slot_count();
    let mut index: usize = 0;
    assert(world@.entries.take(0) =~= Seq::empty());
    assert(old(text)@ + Seq::<char>::empty() =~= old(text)@);
    while index < slots
        invariant
            index <= slots,
            slots == world@.entries.len(),
            world.wf(),
            text@ == old(text)@ + locations_text(
                world@.entries.take(index as int),
                world@.tables,
            ),
        decreases slots - index,
    {
        let ghost done = world@.entries.take(index as int);
        let ghost next = world@.entries.take(index + 1);
        assert(next.drop_last() =~= done);
        assert(next.last() == world@.entries[index as int]);
        proof {
            world.lemma_wf_view();
        }
        match world.entity_at(index) {
            Some(entity) => {
                match world.get_valid_entity_table_data(&entity) {
                    Some(entry) => {
                        assert(world@.entry_names_row(index as int));
                        match world.table(entry.table_index) {
                            Some(table) => {
                                text.append("\nEntityTableData { generation: ");
                                push_digits(text, entry.generation as u64);
                                text.append(", table_index: ");
                                push_digits(text, entry.table_index as u64);
                                text.append(", inner_table_index: ");
                                push_digits(text, entry.inner_table_index as u64);
                                text.append(", component_set: ");
                                push_list(text, table.component_set());
                                text.append(" }");
                                assert(text@ =~= old(text)@ + locations_text(done, world@.tables)
                                    + location_text(*entry, table@.component_set));
                            },
                            None => {},
                        }
                    },
                    None => {},
                }
            },
            None => {},
        }
        index += 1;
        assert(text@ =~= old(text)@ + locations_text(next, world@.tables));
    }
    assert(world@.entries.take(index as int) =~= world@.entries);
}

/// The dump of a world: the number of living entities, the free indices,
/// one line for every living entity, and the tables, `descriptions` holding
/// the texts of the components.
pub open spec fn dump_text(
    world: WorldView,
    descriptions: Seq<Vec<Option<Vec<Option<String>>>>>,
) -> Seq<char> {
    "Total entity count: "@ + decimal_digits(world.live_count()) + "\nRemoved indeces: "@
        + list_text(world.free_indices) + "\nEntity Table Data: "@ + locations_text(
        world.entries,
        world.tables,
    ) + "\nTables:"@ + tables_text(world.tables, descriptions) + "\n"@
}

/// Whether a cell has a text exactly if it holds a component.
pub open spec fn cell_fits(cell: Option<ErasedComponent>, text: Option<String>) -> bool {
    cell is Some <==> text is Some
}

/// Whether `text` is, where the cell holds a component, a text that the
/// component gives of itself.
pub open spec fn cell_described(cell: Option<ErasedComponent>, text: Option<String>) -> bool {
    match (cell, text) {
        (Some(component), Some(description)) => component.described_by(description),
        (None, None) => true,
        _ => false,
    }
}

/// Whether `descriptions` has the shape of the columns of `table`: a slot
/// for every column slot, with a text for every cell that holds a component
/// and for no other.
pub open spec fn table_fits(table: TableView, descriptions: Seq<Option<Vec<Option<String>>>>) -> bool {
    &&& descriptions.len() == table.columns.len()
    &&& forall|c: int|
        0 <= c < descriptions.len() ==> ((#[trigger] descriptions[c]) is Some
            <==> table.columns[c] is Some)
    &&& forall|c: int|
        0 <= c < descriptions.len() && (#[trigger] descriptions[c]) is Some
            ==> descriptions[c]->0.len() == table.columns[c]->0.len()
    &&& forall|c: int, row: int|
        0 <= c < descriptions.len() && (#[trigger] descriptions[c]) is Some && 0 <= row
            < descriptions[c]->0.len() ==> cell_fits(
            table.columns[c]->0[row],
            #[trigger] descriptions[c]->0[row],
        )
}

/// Whether `descriptions` holds, in the shape of the columns of `table`,
/// for every component a text that the component gives of itself.
pub open spec fn table_described(
    table: TableView,
    descriptions: Seq<Option<Vec<Option<String>>>>,
) -> bool {
    &&& table_fits(table, descriptions)
    &&& forall|c: int, row: int|
        0 <= c < descriptions.len() && (#[trigger] descriptions[c]) is Some && 0 <= row
            < descriptions[c]->0.len() ==> cell_described(
            table.columns[c]->0[row],
            #[trigger] descriptions[c]->0[row],
        )
}

/// Whether `descriptions` has the shape of the tables of the world.
pub open spec fn fits(world: WorldView, descriptions: Seq<Vec<Option<Vec<Option<String>>>>>) -> bool {
    &&& descriptions.len() == world.tables.len()
    &&& forall|t: int|
        0 <= t < descriptions.len() ==> table_fits(world.tables[t], (#[trigger] descriptions[t])@)
}

/// Whether `descriptions` holds, in the shape of the tables of the world,
/// for every component a text that the component gives of itself.
pub open spec fn described(
    world: WorldView,
    descriptions: Seq<Vec<Option<Vec<Option<String>>>>>,
) -> bool {
    &&& descriptions.len() == world.tables.len()
    &&& forall|t: int|
        0 <= t < descriptions.len() ==> table_described(
            world.tables[t],
            (#[trigger] descriptions[t])@,
        )
}

impl Table {
    /// What the components of the table say of themselves, in the shape of
    /// the columns: a slot for every column slot, and in every column a text
    /// for every cell that holds a component.
    pub fn describe_columns(&self) -> (descriptions: Vec<Option<Vec<Option<String>>>>)
        ensures
            table_described(self@, descriptions@),
    {
        let mut descriptions: Vec<Option<Vec<Option<String>>>> = Vec::new();
        let slots = self.column_count();
        let mut c: usize = 0;
        while c < slots
            invariant
                c <= slots,
                slots == self@.columns.len(),
                descriptions.len() == c,
                forall|d: int|
                    0 <= d < c ==> ((#[trigger] descriptions[d]) is Some
                        <==> self@.columns[d] is Some),
                forall|d: int|
                    0 <= d < c && (#[trigger] descriptions[d]) is Some
                        ==> descriptions[d]->0.len() == self@.columns[d]->0.len(),
                forall|d: int, row: int|
                    0 <= d < c && (#[trigger] descriptions[d]) is Some && 0 <= row
                        < descriptions[d]->0.len() ==> cell_described(
                        self@.columns[d]->0[row],
                        #[trigger] descriptions[d]->0[row],
                    ),
            decreases slots - c,
        {
            let column = match self.column_len(c) {
                Some(rows) => {
                    let mut cells: Vec<Option<String>> = Vec::new();
                    let mut row: usize = 0;
                    while row < rows
                        invariant
                            row <= rows,
                            c < self@.columns.len(),
                            self@.columns[c as int] is Some,
                            rows == self@.columns[c as int]->0.len(),
                            cells.len() == row,
                            forall|r: int|
                                0 <= r < row ==> cell_described(
                                    self@.columns[c as int]->0[r],
                                    #[trigger] cells[r],
                                ),
                        decreases rows - row,
                    {
                        let cell = match self.get(row, c) {
                            Some(component) => Some(component.describe()),
                            None => None,
                        };
                        assert(self@.cell(row as int, c as int)
                            == self@.columns[c as int]->0[row as int]);
                        cells.push(cell);
                        row += 1;
                    }
                    Some(cells)
                },
                None => None,
            };
            descriptions.push(column);
            c += 1;
        }
        proof {
            assert forall|d: int, row: int|
                0 <= d < descriptions.len() && (#[trigger] descriptions[d]) is Some && 0 <= row
                    < descriptions[d]->0.len() implies cell_fits(
                self@.columns[d]->0[row],
                #[trigger] descriptions[d]->0[row],
            ) by {
                assert(cell_described(self@.columns[d]->0[row], descriptions[d]->0[row]));
            }
        }
        descriptions
    }
}

/// Texts that describe the components of a table have the table's shape.
pub proof fn lemma_described_fits(
    world: WorldView,
    descriptions: Seq<Vec<Option<Vec<Option<String>>>>>,
)
    requires
        described(world, descriptions),
    ensures
        fits(world, descriptions),
{
    assert forall|t: int| 0 <= t < descriptions.len() implies table_fits(
        world.tables[t],
        (#[trigger] descriptions[t])@,
    ) by {
        assert(table_described(world.tables[t], descriptions[t]@));
    }
}

impl World {
    /// What the components of the world say of themselves, table by table,
    /// each table in the shape of its columns.
    pub fn describe_components(&self) -> (descriptions: Vec<Vec<Option<Vec<Option<String>>>>>)
        ensures
            described(self@, descriptions@),
    {
        let mut descriptions: Vec<Vec<Option<Vec<Option<String>>>>> = Vec::new();
        let tables = self.table_count();
        let mut t: usize = 0;
        while t < tables
            invariant
                t <= tables,
                tables == self@.tables.len(),
                descriptions.len() == t,
                forall|u: int|
                    0 <= u < t ==> table_described(
                        self@.tables[u],
                        (#[trigger] descriptions[u])@,
                    ),
            decreases tables - t,
        {
            match self.table(t) {
                Some(table) => {
                    descriptions.push(table.describe_columns());
                },
                None => {
                    descriptions.push(Vec::new());
                },
            }
            t += 1;
        }
        descriptions
    }

    /// The dump of the world, with `descriptions` for the texts of the
    /// components.
    pub fn render_dump(&self, descriptions: &Vec<Vec<Option<Vec<Option<String>>>>>) -> (text:
        String)
        requires
            self.wf(),
            fits(self@, descriptions@),
        ensures
            text@ == dump_text(self@, descriptions@),
    {
        let mut text = "Total entity count: ".to_owned();
        push_digits(&mut text, self.live_entity_count() as u64);
        text.append("\nRemoved indeces: ");
        push_list(&mut text, self.free_indices());
        text.append("\nEntity Table Data: ");
        push_locations(&mut text, self);
        text.append("\nTables:");
        let ghost head = text@;
        let tables = self.table_count();
        let mut t: usize = 0;
        assert(self@.tables.take(0) =~= Seq::empty());
        assert(head + Seq::<char>::empty() =~= head);
        while t < tables
            invariant
                t <= tables,
                tables == self@.tables.len(),
                descriptions.len() == tables,
                text@ == head + tables_text(self@.tables.take(t as int), descriptions@),
            decreases tables - t,
        {
            let ghost done = self@.tables.take(t as int);
            let ghost next = self@.tables.take(t + 1);
            assert(next.drop_last() =~= done);
            assert(next.last() == self@.tables[t as int]);
            match self.table(t) {
                Some(table) => {
                    text.append("\n\n");
                    push_table(&mut text, table, &descriptions[t]);
                },
                None => {},
            }
            t += 1;
            assert(text@ =~= head + tables_text(next, descriptions@));
        }
        assert(self@.tables.take(t as int) =~= self@.tables);
        text.append("\n");
        assert(text@ =~= dump_text(self@, descriptions@));
        text
    }

    /// The dump of the world: the number of living entities, the free
    /// indices, one line for every living entity, and what the tables hold,
    /// each component as it describes itself.
    pub fn dump(&self) -> (text: String)
        requires
            self.wf(),
        ensures
            exists|descriptions: Seq<Vec<Option<Vec<Option<String>>>>>|
                described(self@, descriptions) && text@ == #[trigger] dump_text(
                    self@,
                    descriptions,
                ),
    {
        let descriptions = self.describe_components();
        proof {
            lemma_described_fits(self@, descriptions@);
        }
        let text = self.render_dump(&descriptions);
        assert(described(self@, descriptions@) && text@ == dump_text(self@, descriptions@));
        text
    }
}

} // verus!
