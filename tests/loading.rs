use modulers::loader::{
    classify_symbols, container_kind, decode_container, module_from_bytes, Container, LoadError,
    SymbolRecord,
};
use modulers::module::ModuleBrief;
use modulers::plan::{assemble_working_set, paths_to_load, plan_load_paths, KERNEL_MODULE_NAME};
use modulers::resolve::ResolveError;
use object::write::{Object, StandardSection, Symbol, SymbolSection};
use object::{Architecture, BinaryFormat, Endianness, SymbolFlags, SymbolKind, SymbolScope};
use std::io::Read;

fn elf_object(provides: &[&str], references: &[&str]) -> Vec<u8> {
    let mut obj = Object::new(BinaryFormat::Elf, Architecture::X86_64, Endianness::Little);
    let text = obj.section_id(StandardSection::Text);
    obj.append_section_data(text, &[0xc3; 16], 1);
    for (i, name) in provides.iter().enumerate() {
        obj.add_symbol(Symbol {
            name: name.as_bytes().to_vec(),
            value: i as u64,
            size: 1,
            kind: SymbolKind::Text,
            scope: SymbolScope::Linkage,
            weak: false,
            section: SymbolSection::Section(text),
            flags: SymbolFlags::None,
        });
    }
    for name in references {
        obj.add_symbol(Symbol {
            name: name.as_bytes().to_vec(),
            value: 0,
            size: 0,
            kind: SymbolKind::Unknown,
            scope: SymbolScope::Linkage,
            weak: false,
            section: SymbolSection::Undefined,
            flags: SymbolFlags::None,
        });
    }
    obj.add_symbol(Symbol {
        name: b"local_helper".to_vec(),
        value: 0,
        size: 1,
        kind: SymbolKind::Text,
        scope: SymbolScope::Compilation,
        weak: false,
        section: SymbolSection::Section(text),
        flags: SymbolFlags::None,
    });
    obj.write().unwrap()
}

fn row(name: Option<&str>, defined: bool, global: bool) -> SymbolRecord {
    SymbolRecord { name: name.map(|n| n.to_string()), defined, global }
}

fn module(name: &str, provides: &[&str], references: &[&str]) -> ModuleBrief {
    ModuleBrief {
        name: name.to_string(),
        path: format!("/m/{}.ko", name),
        provides_symbols: provides.iter().map(|s| s.to_string()).collect(),
        references_symbols: references.iter().map(|s| s.to_string()).collect(),
    }
}

#[test]
fn classify_splits_global_symbols() {
    let rows = vec![
        row(Some("init_module"), true, true),
        row(Some("printk"), false, true),
        row(Some("helper"), true, false),
        row(None, false, false),
        row(Some("data_table"), true, true),
        row(Some("kmalloc"), false, true),
    ];
    let (p, q) = classify_symbols(&rows).unwrap();
    assert_eq!(p, vec!["init_module".to_string(), "data_table".to_string()]);
    assert_eq!(q, vec!["printk".to_string(), "kmalloc".to_string()]);
}

#[test]
fn classify_rejects_unnamed_global() {
    let rows = vec![row(Some("a"), true, true), row(None, false, true)];
    assert_eq!(classify_symbols(&rows).err(), Some(LoadError::UnnamedSymbol));
}

#[test]
fn container_kinds() {
    let k = |s: &str| container_kind(&Some(s.to_string()));
    assert_eq!(k("application/x-executable"), Some(Container::RawObject));
    assert_eq!(k("application/vnd.microsoft.portable-executable"), Some(Container::RawObject));
    assert_eq!(k("application/zstd"), Some(Container::Zstd));
    assert_eq!(k("application/x-xz"), Some(Container::Xz));
    assert_eq!(k("application/gzip"), None);
    assert_eq!(container_kind(&None), None);
}

#[test]
fn raw_object_becomes_module() {
    let data = elf_object(&["wg_init"], &["printk"]);
    let m = module_from_bytes("wireguard.ko".to_string(), "/m/wireguard.ko".to_string(), data).unwrap();
    assert_eq!(m.name, "wireguard.ko");
    assert_eq!(m.path, "/m/wireguard.ko");
    assert_eq!(m.provides_symbols, vec!["wg_init".to_string()]);
    assert_eq!(m.references_symbols, vec!["printk".to_string()]);
}

#[test]
fn zstd_object_is_decompressed() {
    let data = elf_object(&["zfn"], &["kfree"]);
    let packed = zstd::encode_all(&data[..], 3).unwrap();
    assert_eq!(decode_container(packed.clone()).unwrap(), data);
    let m = module_from_bytes("z.ko".to_string(), "/m/z.ko.zst".to_string(), packed).unwrap();
    assert_eq!(m.provides_symbols, vec!["zfn".to_string()]);
    assert_eq!(m.references_symbols, vec!["kfree".to_string()]);
}

#[test]
fn xz_object_is_decompressed() {
    let data = elf_object(&["xfn"], &[]);
    let mut packed = Vec::new();
    xz::read::XzEncoder::new(&data[..], 6).read_to_end(&mut packed).unwrap();
    assert_eq!(decode_container(packed.clone()).unwrap(), data);
    let m = module_from_bytes("x.ko".to_string(), "/m/x.ko.xz".to_string(), packed).unwrap();
    assert_eq!(m.provides_symbols, vec!["xfn".to_string()]);
}

#[test]
fn foreign_content_is_unknown_format() {
    let r = module_from_bytes("notes.ko".to_string(), "/m/notes.ko".to_string(), b"just some text".to_vec());
    assert_eq!(r.err(), Some(LoadError::UnknownFormat));
}

#[test]
fn compressed_non_object_is_not_an_object() {
    let packed = zstd::encode_all(&b"hello, not an object file"[..], 3).unwrap();
    let r = module_from_bytes("h.ko".to_string(), "/m/h.ko.zst".to_string(), packed);
    assert_eq!(r.err(), Some(LoadError::NotAnObject));
}

#[test]
fn broken_compressed_stream_fails_to_decompress() {
    let mut packed = zstd::encode_all(&elf_object(&["f"], &[])[..], 3).unwrap();
    let n = packed.len();
    packed.truncate(n - 8);
    assert_eq!(decode_container(packed).err(), Some(LoadError::Decompress));
}

#[test]
fn discovery_skips_foreign_candidate() {
    let kernel = module(KERNEL_MODULE_NAME, &["printk"], &[]);
    let loaded = vec![
        Ok(module("b", &["b_fn"], &["printk"])),
        module_from_bytes("junk.ko".to_string(), "/m/junk.ko".to_string(), b"junk".to_vec()),
        Ok(module("a", &["a_fn"], &["b_fn"])),
    ];
    assert!(loaded[1].is_err());
    let set = assemble_working_set(kernel.clone(), &loaded);
    let set_names: Vec<&str> = set.iter().map(|m| m.name.as_str()).collect();
    assert_eq!(set_names, vec!["b", "a", "vmlinux"]);
    let paths = plan_load_paths(kernel, &loaded, "a".to_string()).unwrap();
    assert_eq!(paths, vec!["/m/b.ko".to_string(), "/m/a.ko".to_string()]);
}

#[test]
fn plan_reports_missing_target() {
    let kernel = module(KERNEL_MODULE_NAME, &["printk"], &[]);
    let r = plan_load_paths(kernel, &Vec::new(), "absent".to_string());
    assert_eq!(r.err(), Some(ResolveError::NotFound("absent".to_string())));
}

#[test]
fn kernel_image_path_is_left_out() {
    let order = vec![module("vmlinux", &[], &[]), module("a", &[], &[])];
    assert_eq!(paths_to_load(&order), vec!["/m/a.ko".to_string()]);
}
