use pathtracer::assets::select_assets;

fn b(s: &str) -> Vec<u8> {
    s.as_bytes().to_vec()
}

#[test]
fn selects_and_sorts_by_extension() {
    let names = vec![b("zeta.glb"), b("readme.txt"), b("alpha.glb"), b("box.glb"), b("cube.dds")];
    let r = select_assets(names, &b("glb"));
    assert_eq!(r, vec![b("alpha.glb"), b("box.glb"), b("zeta.glb")]);
}

#[test]
fn extension_needs_a_dot_and_a_stem() {
    // a bare extension, a dotless name and a hidden file all miss
    let names = vec![b(".glb"), b("glb"), b("a.glb"), b("aglb")];
    let r = select_assets(names, &b("glb"));
    assert_eq!(r, vec![b("a.glb")]);
}

#[test]
fn empty_input_selects_nothing() {
    let r = select_assets(Vec::new(), &b("dds"));
    assert!(r.is_empty());
}

#[test]
fn duplicate_names_are_kept() {
    let names = vec![b("a.dds"), b("b.dds"), b("a.dds")];
    let r = select_assets(names, &b("dds"));
    assert_eq!(r, vec![b("a.dds"), b("a.dds"), b("b.dds")]);
}

#[test]
fn order_is_bytewise() {
    let names = vec![b("b10.glb"), b("b2.glb"), b("a.glb")];
    let r = select_assets(names, &b("glb"));
    // plain byte order: "b10" sorts before "b2"
    assert_eq!(r, vec![b("a.glb"), b("b10.glb"), b("b2.glb")]);
}
