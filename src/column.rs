use vstd::prelude::*;

verus! {

/// A column of the listing. The variants are declared in the
/// lexicographic order of their keys, which is the order of display.
#[derive(Clone, Copy, Debug, PartialEq, Eq, Structural)]
pub enum Column {
    Name,
    Size,
    Type,
}

/// The key of a column, as its header is derived from it.
pub open spec fn key_of(c: Column) -> Seq<char> {
    match c {
        Column::Name => "name"@,
        Column::Size => "size"@,
        Column::Type => "type"@,
    }
}

/// Position of a column in display order.
pub open spec fn rank(c: Column) -> nat {
    match c {
        Column::Name => 0,
        Column::Size => 1,
        Column::Type => 2,
    }
}

/// Which optional columns the listing shows.
#[derive(Clone, Copy, Debug, PartialEq, Eq, Structural)]
pub struct Config {
    pub show_size: bool,
    pub show_types: bool,
}

/// The columns that a configuration shows, in display order.
pub open spec fn columns_of(cfg: Config) -> Seq<Column> {
    let a: Seq<Column> = seq![Column::Name];
    let b: Seq<Column> = if cfg.show_size { a.push(Column::Size) } else { a };
    if cfg.show_types { b.push(Column::Type) } else { b }
}

/// A sequence of columns with no repetition, in display order.
pub open spec fn ordered(cols: Seq<Column>) -> bool {
    forall|i: int, j: int| 0 <= i < j < cols.len() ==> rank(#[trigger] cols[i]) < rank(#[trigger] cols[j])
}

impl Column {
    /// The key of this column (`name`, `size` or `type`).
    pub fn key(&self) -> (r: &'static str)
        ensures
            r@ == key_of(*self),
    {
        match self {
            Column::Name => "name",
            Column::Size => "size",
            Column::Type => "type",
        }
    }
}

/// The active columns of a configuration: always the name, then size and
/// type where asked for. Derived from the flags alone, so that an empty
/// directory has its columns too.
pub fn active_columns(cfg: &Config) -> (r: Vec<Column>)
    ensures
        r@ == columns_of(*cfg),
        ordered(r@),
        r@.len() >= 1,
        r@[0] == Column::Name,
{
    let mut v: Vec<Column> = Vec::new();
    v.push(Column::Name);
    if cfg.show_size {
        v.push(Column::Size);
    }
    if cfg.show_types {
        v.push(Column::Type);
    }
    v
}

} // verus!
