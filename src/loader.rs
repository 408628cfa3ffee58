use vstd::prelude::*;
use crate::module::{strings_view, ModuleBrief, ModuleView};
use object::{Object, ObjectSymbol};
use std::io::Read;

verus! {

/// One entry of an object file's symbol table, as the loader reads it.
#[derive(Debug, Clone)]
pub struct SymbolRecord {
    /// The symbol's name; `None` when the table's name could not be read.
    pub name: Option<String>,
    /// The symbol has a known kind (function, data, ...): it is defined here.
    pub defined: bool,
    /// The symbol is visible outside its object file.
    pub global: bool,
}

/// A symbol record as plain values: name, defined, global.
pub open spec fn symbol_view(s: SymbolRecord) -> (Option<Seq<char>>, bool, bool) {
    (
        match s.name {
            Some(n) => Some(n@),
            None => None,
        },
        s.defined,
        s.global,
    )
}

/// The views of a symbol table.
pub open spec fn symbols_view(v: Seq<SymbolRecord>) -> Seq<(Option<Seq<char>>, bool, bool)> {
    v.map_values(|s: SymbolRecord| symbol_view(s))
}

/// How a module file's bytes are wrapped.
#[derive(Debug, Clone, Copy, PartialEq, Eq, Structural)]
pub enum Container {
    /// An object image as it stands.
    RawObject,
    Zstd,
    Xz,
}

/// Why a module file could not be turned into a module record.
#[derive(Debug, Clone, Copy, PartialEq, Eq, Structural)]
pub enum LoadError {
    /// The content is of no recognised container type.
    UnknownFormat,
    /// The compressed stream could not be decompressed.
    Decompress,
    /// The decoded bytes are not an object file.
    NotAnObject,
    /// A global symbol of the table has no readable name.
    UnnamedSymbol,
}

/// The MIME type that content sniffing gives for `data`.
pub uninterp spec fn mime_of(data: Seq<u8>) -> Option<Seq<char>>;

/// The bytes that zstd decompression of `data` gives, if it succeeds.
pub uninterp spec fn zstd_decoded(data: Seq<u8>) -> Option<Seq<u8>>;

/// The bytes that xz decompression of `data` gives, if it succeeds.
pub uninterp spec fn xz_decoded(data: Seq<u8>) -> Option<Seq<u8>>;

/// The symbol table of the object file `data` (name, defined, global), if it
/// is one.
pub uninterp spec fn object_symbols(data: Seq<u8>) -> Option<Seq<(Option<Seq<char>>, bool, bool)>>;

/// The view of an optional string.
pub open spec fn opt_string_view(o: Option<String>) -> Option<Seq<char>> {
    match o {
        Some(s) => Some(s@),
        None => None,
    }
}

/// Relies on `infer::get` and `infer::Type::mime_type`: the MIME type that
/// the content of `data` is recognised as.
#[verifier::external_body]
fn sniff_mime(data: &[u8]) -> (r: Option<String>)
    ensures
        opt_string_view(r) == mime_of(data@),
{
    infer::get(data).map(|t| t.mime_type().to_string())
}

/// Relies on `zstd::decode_all`: the decompressed content of a zstd stream.
#[verifier::external_body]
fn zstd_decompress(data: &[u8]) -> (r: Option<Vec<u8>>)
    ensures
        match r {
            Some(v) => zstd_decoded(data@) == Some(v@),
            None => zstd_decoded(data@) is None,
        },
{
    zstd::decode_all(data).ok()
}

/// Relies on `xz::read::XzDecoder`: the decompressed content of an xz stream.
#[verifier::external_body]
fn xz_decompress(data: &[u8]) -> (r: Option<Vec<u8>>)
    ensures
        match r {
            Some(v) => xz_decoded(data@) == Some(v@),
            None => xz_decoded(data@) is None,
        },
{
    let mut out: Vec<u8> = Vec::new();
    xz::read::XzDecoder::new(data).read_to_end(&mut out).ok().map(|_| out)
}

/// Relies on `object::File::parse` and its `symbols` iterator: for each
/// symbol, its name (if readable), whether its kind is known, and whether it
/// is global.
#[verifier::external_body]
fn read_symbol_table(data: &[u8]) -> (r: Option<Vec<SymbolRecord>>)
    ensures
        match r {
            Some(v) => object_symbols(data@) == Some(symbols_view(v@)),
            None => object_symbols(data@) is None,
        },
{
    let file = object::File::parse(data).ok()?;
    Some(file.symbols().map(|s| SymbolRecord {
        name: s.name().ok().map(|n| n.to_string()),
        defined: s.kind() != object::SymbolKind::Unknown,
        global: s.is_global(),
    }).collect())
}

/// The container that a sniffed MIME type stands for.
pub open spec fn container_of(mime: Option<Seq<char>>) -> Option<Container> {
    match mime {
        None => None,
        Some(m) => if m == "application/x-executable"@ || m
            == "application/vnd.microsoft.portable-executable"@ {
            Some(Container::RawObject)
        } else if m == "application/zstd"@ {
            Some(Container::Zstd)
        } else if m == "application/x-xz"@ {
            Some(Container::Xz)
        } else {
            None
        },
    }
}

/// Maps a sniffed MIME type to the container it stands for; `None` for any
/// type that is not an object image, zstd or xz.
pub fn container_kind(mime: &Option<String>) -> (r: Option<Container>)
    ensures
        r == container_of(opt_string_view(*mime)),
{
    match mime {
        None => None,
        Some(m) => {
            if *m == "application/x-executable".to_owned() || *m
                == "application/vnd.microsoft.portable-executable".to_owned() {
                Some(Container::RawObject)
            } else if *m == "application/zstd".to_owned() {
                Some(Container::Zstd)
            } else if *m == "application/x-xz".to_owned() {
                Some(Container::Xz)
            } else {
                None
            }
        },
    }
}

/// The object image held in the file content `data`.
pub open spec fn decoded_image(data: Seq<u8>) -> Result<Seq<u8>, LoadError> {
    match container_of(mime_of(data)) {
        None => Err(LoadError::UnknownFormat),
        Some(Container::RawObject) => Ok(data),
        Some(Container::Zstd) => match zstd_decoded(data) {
            Some(d) => Ok(d),
            None => Err(LoadError::Decompress),
        },
        Some(Container::Xz) => match xz_decoded(data) {
            Some(d) => Ok(d),
            None => Err(LoadError::Decompress),
        },
    }
}

/// Sniffs the container of a module file's content and unwraps it into the
/// object image it holds.
pub fn decode_container(data: Vec<u8>) -> (r: Result<Vec<u8>, LoadError>)
    ensures
        match decoded_image(data@) {
            Ok(d) => r matches Ok(v) && v@ == d,
            Err(e) => r == Err::<Vec<u8>, LoadError>(e),
        },
{
    let mime = sniff_mime(data.as_slice());
    match container_kind(&mime) {
        None => Err(LoadError::UnknownFormat),
        Some(Container::RawObject) => Ok(data),
        Some(Container::Zstd) => match zstd_decompress(data.as_slice()) {
            Some(d) => Ok(d),
            None => Err(LoadError::Decompress),
        },
        Some(Container::Xz) => match xz_decompress(data.as_slice()) {
            Some(d) => Ok(d),
            None => Err(LoadError::Decompress),
        },
    }
}

/// The name of a symbol row, empty when unreadable.
pub open spec fn row_name(row: (Option<Seq<char>>, bool, bool)) -> Seq<char> {
    match row.0 {
        Some(n) => n,
        None => Seq::empty(),
    }
}

/// The names of the global symbols of `rows` that are defined: what the
/// module exports, in table order.
pub open spec fn provided_names(rows: Seq<(Option<Seq<char>>, bool, bool)>) -> Seq<Seq<char>>
    decreases rows.len(),
{
    if rows.len() == 0 {
        Seq::empty()
    } else {
        let last = rows.last();
        let init = provided_names(rows.drop_last());
        if last.2 && last.1 {
            init.push(row_name(last))
        } else {
            init
        }
    }
}

/// The names of the global symbols of `rows` whose kind is unknown: what the
/// module needs from elsewhere, in table order.
pub open spec fn referenced_names(rows: Seq<(Option<Seq<char>>, bool, bool)>) -> Seq<Seq<char>>
    decreases rows.len(),
{
    if rows.len() == 0 {
        Seq::empty()
    } else {
        let last = rows.last();
        let init = referenced_names(rows.drop_last());
        if last.2 && !last.1 {
            init.push(row_name(last))
        } else {
            init
        }
    }
}

/// Every global symbol of `rows` has a readable name.
pub open spec fn globals_named(rows: Seq<(Option<Seq<char>>, bool, bool)>) -> bool {
    forall|i: int| 0 <= i < rows.len() && (#[trigger] rows[i]).2 ==> rows[i].0 is Some
}

/// Splits a symbol table into the names the module exports and the names it
/// references; local symbols count for neither. Fails when a global symbol
/// has no readable name.
pub fn classify_symbols(rows: &Vec<SymbolRecord>) -> (r: Result<(Vec<String>, Vec<String>), LoadError>)
    ensures
        globals_named(symbols_view(rows@)) ==> (r matches Ok((p, q)) && strings_view(p@)
            == provided_names(symbols_view(rows@)) && strings_view(q@) == referenced_names(
            symbols_view(rows@),
        )),
        !globals_named(symbols_view(rows@)) ==> r == Err::<(Vec<String>, Vec<String>), LoadError>(
            LoadError::UnnamedSymbol,
        ),
{
    let ghost rv = symbols_view(rows@);
    let mut provided: Vec<String> = Vec::new();
    let mut referenced: Vec<String> = Vec::new();
    let mut i: usize = 0;
    while i < rows.len()
        invariant
            i <= rows@.len(),
            rv == symbols_view(rows@),
            globals_named(rv.subrange(0, i as int)),
            strings_view(provided@) == provided_names(rv.subrange(0, i as int)),
            strings_view(referenced@) == referenced_names(rv.subrange(0, i as int)),
        decreases rows@.len() - i,
    {
        let row = &rows[i];
        assert(rv[i as int] == symbol_view(rows@[i as int]));
        assert(rv.subrange(0, i + 1).drop_last() =~= rv.subrange(0, i as int));
        if row.global {
            match &row.name {
                None => {
                    assert(!globals_named(rv));
                    return Err(LoadError::UnnamedSymbol);
                },
                Some(n) => {
                    let ghost pv = strings_view(provided@);
                    let ghost qv = strings_view(referenced@);
                    if row.defined {
                        provided.push(n.clone());
                        assert(strings_view(provided@) =~= pv.push(n@));
                    } else {
                        referenced.push(n.clone());
                        assert(strings_view(referenced@) =~= qv.push(n@));
                    }
                },
            }
        }
        assert(globals_named(rv.subrange(0, i + 1))) by {
            assert forall|j: int| 0 <= j < i + 1 && (#[trigger] rv.subrange(0, i + 1)[j]).2 implies rv.subrange(
                0,
                i + 1,
            )[j].0 is Some by {
                if j < i {
                    assert(rv.subrange(0, i + 1)[j] == rv.subrange(0, i as int)[j]);
                }
            }
        }
        i = i + 1;
    }
    assert(rv.subrange(0, rows@.len() as int) =~= rv);
    Ok((provided, referenced))
}

/// The module record that the content `data` of a file gives.
pub open spec fn loaded_module(name: Seq<char>, path: Seq<char>, data: Seq<u8>) -> Result<
    ModuleView,
    LoadError,
> {
    match decoded_image(data) {
        Err(e) => Err(e),
        Ok(image) => match object_symbols(image) {
            None => Err(LoadError::NotAnObject),
            Some(rows) => if globals_named(rows) {
                Ok(
                    ModuleView {
                        name,
                        path,
                        provides: provided_names(rows),
                        references: referenced_names(rows),
                    },
                )
            } else {
                Err(LoadError::UnnamedSymbol)
            },
        },
    }
}

/// Builds the module record named `name`, found at `path`, from the content
/// `data` of its file: unwraps the container, reads the object's symbol
/// table and classifies its symbols. Never partially succeeds.
pub fn module_from_bytes(name: String, path: String, data: Vec<u8>) -> (r: Result<
    ModuleBrief,
    LoadError,
>)
    ensures
        match loaded_module(name@, path@, data@) {
            Ok(m) => r matches Ok(b) && b@ == m,
            Err(e) => r == Err::<ModuleBrief, LoadError>(e),
        },
{
    let image = match decode_container(data) {
        Ok(image) => image,
        Err(e) => {
            return Err(e);
        },
    };
    let rows = match read_symbol_table(image.as_slice()) {
        Some(rows) => rows,
        None => {
            return Err(LoadError::NotAnObject);
        },
    };
    match classify_symbols(&rows) {
        Ok((provides_symbols, references_symbols)) => Ok(
            ModuleBrief { name, path, provides_symbols, references_symbols },
        ),
        Err(e) => Err(e),
    }
}

} // verus!
