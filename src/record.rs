use vstd::prelude::*;
use crate::column::{columns_of, Column, Config};

verus! {

/// A directory entry as the platform lists it.
#[derive(Debug)]
pub struct Entry {
    pub name: String,
    pub path: String,
    pub is_dir: bool,
    pub size: u64,
}

/// One value of the table, with the flag that asks for it to be emphasized.
#[derive(Debug)]
pub struct Cell {
    pub text: String,
    pub emphasize: bool,
}

/// The values of one entry: the name always, size and type where shown.
#[derive(Debug)]
pub struct Record {
    pub name: Cell,
    pub size: Option<Cell>,
    pub file_type: Option<Cell>,
}

pub open spec fn cell_view(c: Cell) -> (Seq<char>, bool) {
    (c.text@, c.emphasize)
}

/// The value of a record in a column, where the record has one.
pub open spec fn cell(r: Record, c: Column) -> Option<(Seq<char>, bool)> {
    match c {
        Column::Name => Some(cell_view(r.name)),
        Column::Size => match r.size {
            Some(x) => Some(cell_view(x)),
            None => None,
        },
        Column::Type => match r.file_type {
            Some(x) => Some(cell_view(x)),
            None => None,
        },
    }
}

/// Text of a record's value in a column, empty where it has none.
pub open spec fn cell_text(r: Record, c: Column) -> Seq<char> {
    match cell(r, c) {
        Some(v) => v.0,
        None => seq![],
    }
}

/// What `humansize::format_size` gives for a byte count in decimal units.
pub uninterp spec fn size_text(n: u64) -> Seq<char>;

/// The first MIME type that `new_mime_guess` maps a path's extension to.
pub uninterp spec fn mime_of(path: Seq<char>) -> Option<Seq<char>>;

pub open spec fn opt_view(m: Option<&str>) -> Option<Seq<char>> {
    match m {
        Some(t) => Some(t@),
        None => None,
    }
}

/// Relies on `humansize::format_size` with the `DECIMAL` options: the
/// human-readable size of a byte count, which depends on the count alone.
#[verifier::external_body]
fn format_size(n: u64) -> (r: String)
    ensures
        r@ == size_text(n),
{
    humansize::format_size(n, humansize::DECIMAL)
}

/// Relies on `new_mime_guess::from_path` and `MimeGuess::first_raw`: the
/// first MIME type known for the path's extension, found without reading
/// the disk.
#[verifier::external_body]
fn guess_mime(path: &str) -> (r: Option<&'static str>)
    ensures
        opt_view(r) == mime_of(path@),
{
    new_mime_guess::from_path(path).first_raw()
}

/// The part of `t` before its first `/` (all of `t` if it has none).
pub open spec fn before_slash(t: Seq<char>) -> Seq<char>
    decreases t.len(),
{
    if t.len() == 0 {
        t
    } else if t[0] == '/' {
        seq![]
    } else {
        seq![t[0]] + before_slash(t.drop_first())
    }
}

/// The part of `t` after its first `/`, if it has one.
pub open spec fn after_slash(t: Seq<char>) -> Option<Seq<char>>
    decreases t.len(),
{
    if t.len() == 0 {
        None
    } else if t[0] == '/' {
        Some(t.drop_first())
    } else {
        after_slash(t.drop_first())
    }
}

/// The type shown for a file: the subtype of its MIME type (the piece
/// between the first and a second `/`), the whole MIME type where it has no
/// `/`, and nothing where no MIME type is known.
pub open spec fn type_label(m: Option<Seq<char>>) -> Seq<char> {
    match m {
        None => seq![],
        Some(t) => match after_slash(t) {
            Some(rest) => before_slash(rest),
            None => t,
        },
    }
}

/// Skipping a prefix without `/` keeps what lies around the first `/`.
proof fn lemma_skip_plain(t: Seq<char>, i: int)
    requires
        0 <= i <= t.len(),
        forall|k: int| 0 <= k < i ==> t[k] != '/',
    ensures
        after_slash(t) == after_slash(t.skip(i)),
        before_slash(t) == t.take(i) + before_slash(t.skip(i)),
    decreases i,
{
    if i > 0 {
        let u = t.drop_first();
        assert forall|k: int| 0 <= k < i - 1 implies u[k] != '/' by {
            assert(u[k] == t[k + 1]);
        }
        lemma_skip_plain(u, i - 1);
        assert(u.skip(i - 1) =~= t.skip(i));
        assert(t.take(i) =~= seq![t[0]] + u.take(i - 1));
    } else {
        assert(t.skip(0) =~= t);
        assert(t.take(0) + before_slash(t) =~= before_slash(t));
    }
}

/// Index of the first `/` in `t` at or after `from`, or the length of `t`.
fn find_slash(t: &str, from: usize, n: usize) -> (r: usize)
    requires
        n == t@.len(),
        from <= n,
    ensures
        from <= r <= n,
        forall|k: int| from <= k < r ==> t@[k] != '/',
        r < n ==> t@[r as int] == '/',
{
    let mut i = from;
    while i < n
        invariant
            n == t@.len(),
            from <= i <= n,
            forall|k: int| from <= k < i ==> t@[k] != '/',
        decreases n - i,
    {
        if t.get_char(i) == '/' {
            return i;
        }
        i = i + 1;
    }
    i
}

/// The type label of a guessed MIME type: its subtype, else its main type,
/// else the empty string.
pub fn mime_label(mime: Option<&str>) -> (r: String)
    ensures
        r@ == type_label(opt_view(mime)),
{
    match mime {
        None => String::new(),
        Some(t) => {
            let n = t.unicode_len();
            let i = find_slash(t, 0, n);
            proof {
                lemma_skip_plain(t@, i as int);
            }
            if i == n {
                assert(t@.skip(n as int).len() == 0);
                String::from_str(t)
            } else {
                let j = find_slash(t, i + 1, n);
                let ghost rest = t@.skip(i + 1);
                assert(t@.skip(i as int).drop_first() =~= rest);
                proof {
                    assert forall|k: int| 0 <= k < j - i - 1 implies rest[k] != '/' by {
                        assert(rest[k] == t@[k + i + 1]);
                    }
                    lemma_skip_plain(rest, j - i - 1);
                    if j < n {
                        assert(rest.skip(j - i - 1)[0] == '/');
                    } else {
                        assert(rest.skip(j - i - 1).len() == 0);
                    }
                    assert(rest.take(j - i - 1) + before_slash(rest.skip(j - i - 1)) =~= t@.subrange(i + 1, j as int));
                }
                String::from_str(t.substring_char(i + 1, j))
            }
        },
    }
}

/// The value that an entry shows in a column under a configuration, given
/// the formatted size and the guessed MIME type of the entry.
pub open spec fn entry_cell(
    e: Entry,
    cfg: Config,
    size: Seq<char>,
    mime: Option<Seq<char>>,
    c: Column,
) -> Option<(Seq<char>, bool)> {
    match c {
        Column::Name => Some((e.name@, e.is_dir)),
        Column::Size => if cfg.show_size {
            Some((size, e.is_dir))
        } else {
            None
        },
        Column::Type => if cfg.show_types {
            Some((if e.is_dir { "/"@ } else { type_label(mime) }, e.is_dir))
        } else {
            None
        },
    }
}

/// The record of one entry, from its formatted size and guessed MIME type.
/// Directories are emphasized in every column and show `/` as their type.
pub fn make_record(e: &Entry, cfg: &Config, size: String, mime: Option<&str>) -> (r: Record)
    ensures
        forall|c: Column| cell(r, c) == entry_cell(*e, *cfg, size@, opt_view(mime), c),
{
    let name = Cell { text: e.name.clone(), emphasize: e.is_dir };
    let size_cell = if cfg.show_size {
        Some(Cell { text: size, emphasize: e.is_dir })
    } else {
        None
    };
    let type_cell = if cfg.show_types {
        let text = if e.is_dir {
            String::from_str("/")
        } else {
            mime_label(mime)
        };
        Some(Cell { text, emphasize: e.is_dir })
    } else {
        None
    };
    let r = Record { name, size: size_cell, file_type: type_cell };
    assert forall|c: Column| cell(r, c) == entry_cell(*e, *cfg, size@, opt_view(mime), c) by {}
    r
}

/// Whether a record has a value in exactly the columns of a configuration.
pub open spec fn fits_config(r: Record, cfg: Config) -> bool {
    forall|c: Column| (#[trigger] cell(r, c)).is_some() == columns_of(cfg).contains(c)
}

/// The records of a sequence of entries, in order. Sizes are formatted and
/// MIME types guessed only where their columns are shown.
pub fn collect_records(entries: &Vec<Entry>, cfg: &Config) -> (r: Vec<Record>)
    ensures
        r@.len() == entries@.len(),
        forall|i: int, c: Column|
            0 <= i < r@.len() ==> #[trigger] cell(r@[i], c) == entry_cell(
                entries@[i],
                *cfg,
                size_text(entries@[i].size),
                mime_of(entries@[i].path@),
                c,
            ),
        forall|i: int| 0 <= i < r@.len() ==> fits_config(#[trigger] r@[i], *cfg),
{
    let mut out: Vec<Record> = Vec::new();
    let mut i: usize = 0;
    while i < entries.len()
        invariant
            0 <= i <= entries@.len(),
            out@.len() == i,
            forall|k: int, c: Column|
                0 <= k < i ==> #[trigger] cell(out@[k], c) == entry_cell(
                    entries@[k],
                    *cfg,
                    size_text(entries@[k].size),
                    mime_of(entries@[k].path@),
                    c,
                ),
        decreases entries@.len() - i,
    {
        let e = &entries[i];
        let size = if cfg.show_size {
            format_size(e.size)
        } else {
            String::new()
        };
        let mime = if cfg.show_types && !e.is_dir {
            guess_mime(e.path.as_str())
        } else {
            None
        };
        let rec = make_record(e, cfg, size, mime);
        proof {
            assert forall|c: Column| cell(rec, c) == entry_cell(
                entries@[i as int],
                *cfg,
                size_text(entries@[i as int].size),
                mime_of(entries@[i as int].path@),
                c,
            ) by {
                assert(cell(rec, c) == entry_cell(*e, *cfg, size@, opt_view(mime), c));
            }
        }
        out.push(rec);
        i = i + 1;
    }
    assert forall|k: int| 0 <= k < out@.len() implies fits_config(#[trigger] out@[k], *cfg) by {
        assert forall|c: Column| (#[trigger] cell(out@[k], c)).is_some() == columns_of(*cfg).contains(c) by {
            let cols = columns_of(*cfg);
            match c {
                Column::Name => { assert(cols[0] == Column::Name); },
                Column::Size => {
                    if cfg.show_size { assert(cols[1] == Column::Size); }
                    else { assert(!cols.contains(Column::Size) ) by {
                        if cols.contains(Column::Size) { let j = choose|j: int| 0 <= j < cols.len() && cols[j] == Column::Size; }
                    } }
                },
                Column::Type => {
                    if cfg.show_types { assert(cols[cols.len() - 1] == Column::Type); }
                    else { assert(!cols.contains(Column::Type)) by {
                        if cols.contains(Column::Type) { let j = choose|j: int| 0 <= j < cols.len() && cols[j] == Column::Type; }
                    } }
                },
            }
        }
    }
    out
}

} // verus!
