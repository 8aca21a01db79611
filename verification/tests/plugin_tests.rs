use lib::dep::DepNode;
use lib::plugin::host::{
    dep_flags, denied, location_of, target_variable, Capability, Caps, TargetVariable, VarFlavor,
    VarOrigin, WitVarFlavor, WitVarOrigin, DEP_ORDER_ONLY, DEP_SECOND_EXPANSION, DEP_WAIT,
    EXPAND_VARIABLES, FAIL_BUILD, READ_RECIPES, WALL_CLOCK, WRITE_OUTPUTS,
};
use lib::plugin::nodeset::{child_edges, DepGraph, Edge, EdgeKind, NodeId};
use lib::plugin::{
    coherent, fuel_budget, memory_limit, parse_decimal, parse_instances, resolve_outputs,
    valid_provider_id, OutputDecl, PluginInfo, Settings, DEFAULT_FUEL, DEFAULT_MEMORY_BYTES,
};
use lib::rule::dep_with_name;

#[test]
fn capability_names_parse() {
    assert_eq!(Caps::parse("read-recipes"), Some(Caps { bits: READ_RECIPES }));
    assert_eq!(Caps::parse("wall-clock"), Some(Caps { bits: WALL_CLOCK }));
    assert_eq!(Caps::parse("all"), Some(Caps::all()));
    assert_eq!(Caps::parse("Read-Recipes"), None);
    assert_eq!(Caps::parse(""), None);
    assert_eq!(Caps::from_wit(Capability::FailBuild), Caps { bits: FAIL_BUILD });
}

#[test]
fn default_grant_names_in_stable_order() {
    assert_eq!(
        Caps::default_grant().names(),
        vec!["read-recipes", "read-variables", "write-outputs"]
    );
    assert_eq!(Caps::all().names().len(), 8);
    assert!(Caps::empty().names().is_empty());
    let g = Caps::default_grant();
    assert!(g.contains(Caps { bits: READ_RECIPES }));
    assert!(!g.contains(Caps { bits: WALL_CLOCK }));
    assert_eq!(g.difference(Caps { bits: READ_RECIPES }).names(), vec!["read-variables", "write-outputs"]);
}

#[test]
fn denial_names_the_capability() {
    let e = denied("read-environment", "env");
    assert_eq!(
        e.message,
        b"env requires the `read-environment` capability, which was not granted".to_vec()
    );
    assert!(e.location.is_none());
}

#[test]
fn locations_and_variables() {
    assert!(location_of(None, 3).is_none());
    let f = b"Makefile".to_vec();
    let l = location_of(Some(&f), 3).unwrap();
    assert_eq!((l.file, l.line, l.column), (b"Makefile".to_vec(), 3, 0));
    let v = TargetVariable {
        name: b"CFLAGS".to_vec(),
        value: b"-O2".to_vec(),
        flavor: VarFlavor::Append,
        origin: VarOrigin::Command,
        defined_in: None,
        defined_lineno: 0,
        exportable: true,
        private_var: false,
    };
    let w = target_variable(&v);
    assert_eq!(w.name, b"CFLAGS".to_vec());
    assert_eq!(w.flavor, WitVarFlavor::Undefined);
    assert_eq!(w.origin, WitVarOrigin::CommandLine);
    assert!(w.exported && !w.private && w.defined_at.is_none());
}

#[test]
fn dependency_flags() {
    let mut d: DepNode = dep_with_name(b"x".to_vec());
    assert_eq!(dep_flags(&d).bits, 0);
    d.ignore_mtime = true;
    d.wait_here = true;
    d.needs_second_expansion = true;
    assert_eq!(dep_flags(&d).bits, DEP_ORDER_ONLY | DEP_WAIT | DEP_SECOND_EXPANSION);
}

#[test]
fn child_edges_follow_dependency_edges_only() {
    let g = DepGraph {
        out_edges: vec![
            (NodeId::Root, vec![Edge { to: NodeId::File(1), kind: EdgeKind::Goal(0) }]),
            (
                NodeId::File(1),
                vec![
                    Edge { to: NodeId::File(2), kind: EdgeKind::Prerequisite(0) },
                    Edge { to: NodeId::Rule(0), kind: EdgeKind::DerivedBy(0) },
                    Edge { to: NodeId::File(3), kind: EdgeKind::AlsoMake(1) },
                    Edge { to: NodeId::File(4), kind: EdgeKind::Renamed },
                ],
            ),
        ],
    };
    assert_eq!(child_edges(&g, NodeId::Root), vec![NodeId::File(1)]);
    assert_eq!(child_edges(&g, NodeId::File(1)), vec![NodeId::File(2), NodeId::File(3)]);
    assert!(child_edges(&g, NodeId::File(9)).is_empty());
}

#[test]
fn instances_from_the_environment() {
    let mut warnings = Vec::new();
    let specs = parse_instances(
        Some(" compdb = /x/compdb.wasm ,, /lib/foo.wasm"),
        Some("/legacy.wasm"),
        Some("compdb.out.database = db.json ; compdb.fuel=100;nodot=1; foo.k"),
        Some("compdb:wall-clock,bogus"),
        Some("*:read-recipes"),
        &mut warnings,
    );
    assert_eq!(specs.len(), 3);
    assert_eq!(specs[0].name, b"compdb".to_vec());
    assert_eq!(specs[0].path, b"/x/compdb.wasm".to_vec());
    // The bare path is named after its file stem, through `Path::file_stem`.
    assert_eq!(specs[1].name, b"foo".to_vec());
    assert_eq!(specs[1].path, b"/lib/foo.wasm".to_vec());
    assert_eq!(specs[2].name, b"default".to_vec());
    assert_eq!(specs[2].path, b"/legacy.wasm".to_vec());
    assert_eq!(
        specs[0].settings.entries,
        vec![(b"out.database".to_vec(), b"db.json".to_vec()), (b"fuel".to_vec(), b"100".to_vec())]
    );
    assert!(specs[1].settings.entries.is_empty());
    assert_eq!(specs[0].allowed.names(), vec!["read-variables", "wall-clock", "write-outputs"]);
    assert_eq!(specs[1].allowed.names(), vec!["read-variables", "write-outputs"]);
    assert_eq!(warnings, vec![b"make: MAKERS_PLUGIN_ALLOW: unknown capability `bogus`".to_vec()]);
    assert_eq!(fuel_budget(&specs[0].settings), 100);
    assert_eq!(fuel_budget(&specs[1].settings), DEFAULT_FUEL);
}

#[test]
fn no_configuration_gives_no_instances() {
    let mut warnings = Vec::new();
    let specs = parse_instances(None, Some(""), None, None, None, &mut warnings);
    assert!(specs.is_empty());
    assert!(warnings.is_empty());
}

#[test]
fn budgets_fall_back_to_the_defaults() {
    let mut s = Settings::new();
    assert_eq!(memory_limit(&s), DEFAULT_MEMORY_BYTES);
    s.insert(b"memory-bytes".to_vec(), b"4096".to_vec());
    assert_eq!(memory_limit(&s), 4096);
    s.insert(b"memory-bytes".to_vec(), b"lots".to_vec());
    assert_eq!(memory_limit(&s), DEFAULT_MEMORY_BYTES);
    assert_eq!(s.entries.len(), 1);
    s.insert(b"fuel".to_vec(), b"+7".to_vec());
    assert_eq!(fuel_budget(&s), 7);
}

#[test]
fn decimal_numbers() {
    assert_eq!(parse_decimal(b"0", u64::MAX), Some(0));
    assert_eq!(parse_decimal(b"+42", u64::MAX), Some(42));
    assert_eq!(parse_decimal(b"18446744073709551615", u64::MAX), Some(u64::MAX));
    assert_eq!(parse_decimal(b"18446744073709551616", u64::MAX), None);
    assert_eq!(parse_decimal(b"", u64::MAX), None);
    assert_eq!(parse_decimal(b"+", u64::MAX), None);
    assert_eq!(parse_decimal(b"-1", u64::MAX), None);
    assert_eq!(parse_decimal(b"1 ", u64::MAX), None);
    assert_eq!(parse_decimal(b"300", 255), None);
    assert_eq!(parse_decimal(b"255", 255), Some(255));
}

#[test]
fn provider_ids_must_be_namespaced() {
    assert_eq!(valid_provider_id("acme:cc/info"), Ok(()));
    assert_eq!(valid_provider_id("acme:cc"), Err("ids must be namespaced as `<org>:<package>/<name>`"));
    assert!(valid_provider_id(":cc/info").is_err());
    assert!(valid_provider_id("info").is_err());
    assert!(valid_provider_id("a/b:c").is_err());
}

#[test]
fn outputs_resolve_against_the_working_directory() {
    let mut warnings = Vec::new();
    let specs = parse_instances(Some("p=/p.wasm"), None, Some("p.out.db=/abs/db.json"), None, None, &mut warnings);
    let info = PluginInfo {
        name: b"p".to_vec(),
        fatal: false,
        deterministic: false,
        outputs: vec![
            OutputDecl { logical_name: b"db".to_vec(), default_path: b"x.json".to_vec() },
            OutputDecl { logical_name: b"log".to_vec(), default_path: b"out/log.txt".to_vec() },
        ],
    };
    let slots = resolve_outputs(&info, &specs[0], b"/work");
    assert_eq!(slots[0].path, b"/abs/db.json".to_vec());
    assert_eq!(slots[1].path, b"/work/out/log.txt".to_vec());
    assert_eq!(slots[1].logical, b"log".to_vec());
    assert!(!slots[1].open && !slots[1].published && slots[1].buf.is_empty());
    let slots2 = resolve_outputs(&info, &specs[0], b"/work/");
    assert_eq!(slots2[1].path, b"/work/out/log.txt".to_vec());
}

#[test]
fn a_setting_reads_back_the_last_write() {
    let mut s = Settings::new();
    s.insert(b"a".to_vec(), b"1".to_vec());
    s.insert(b"b".to_vec(), b"2".to_vec());
    s.insert(b"a".to_vec(), b"3".to_vec());
    assert_eq!(s.get(b"a"), Some(&b"3".to_vec()));
    assert_eq!(s.get(b"b"), Some(&b"2".to_vec()));
    assert_eq!(s.get(b"c"), None);
    assert_eq!(s.entries.len(), 2);
}

fn manifest(name: &str, outputs: &[&str]) -> PluginInfo {
    PluginInfo {
        name: name.as_bytes().to_vec(),
        fatal: false,
        deterministic: false,
        outputs: outputs
            .iter()
            .map(|n| OutputDecl { logical_name: n.as_bytes().to_vec(), default_path: b"out".to_vec() })
            .collect(),
    }
}

fn caps(list: &[u16]) -> Caps {
    Caps { bits: list.iter().fold(0, |a, b| a | b) }
}

#[test]
fn contradicting_manifests_are_rejected() {
    assert_eq!(coherent(&manifest("  ", &[]), caps(&[])), Err(b"manifest has an empty name".to_vec()));
    let mut m = manifest("p", &[]);
    m.fatal = true;
    assert_eq!(
        coherent(&m, caps(&[])),
        Err(b"declares failure-policy `fatal` without requesting the `fail-build` capability".to_vec())
    );
    assert_eq!(coherent(&m, caps(&[FAIL_BUILD])), Ok(()));
    let mut d = manifest("p", &[]);
    d.deterministic = true;
    assert_eq!(
        coherent(&d, caps(&[WALL_CLOCK, EXPAND_VARIABLES, READ_RECIPES])),
        Err("declares `deterministic` while requesting expand-variables and wall-clock — each is a way to depend on state `session.input-digest` does not cover".as_bytes().to_vec())
    );
    assert_eq!(coherent(&d, caps(&[READ_RECIPES])), Ok(()));
    assert_eq!(
        coherent(&manifest("p", &["db", " "]), caps(&[WRITE_OUTPUTS])),
        Err(b"declares an output with an empty logical name".to_vec())
    );
    assert_eq!(
        coherent(&manifest("p", &["db", "log", "db"]), caps(&[WRITE_OUTPUTS])),
        Err(b"declares output `db` twice".to_vec())
    );
    assert_eq!(
        coherent(&manifest("p", &["db"]), caps(&[])),
        Err(b"declares outputs without requesting the `write-outputs` capability".to_vec())
    );
    assert_eq!(coherent(&manifest("p", &["db"]), caps(&[WRITE_OUTPUTS])), Ok(()));
}
