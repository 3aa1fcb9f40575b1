use path_monitor::reparse::{decode_reparse, DecodeError, ReparseTarget};
use path_monitor::resolve::{
    resolve_all_links, resolve_all_links_multiple, resolve_link, FsModel, LinkEntry, LinkWalk,
    ResolveError,
};
use path_monitor::wide::{normalize, path_eq, strip_namespace, WidePath, DOT};

fn units(s: &str) -> Vec<u16> {
    s.encode_utf16().collect()
}

fn path(s: &str) -> WidePath {
    WidePath {
        components: s
            .split('\\')
            .filter(|c| !c.is_empty())
            .map(|c| c.encode_utf16().collect())
            .collect(),
    }
}

fn push_u16(out: &mut Vec<u8>, v: u16) {
    out.push((v & 0xFF) as u8);
    out.push((v >> 8) as u8);
}

fn push_u32(out: &mut Vec<u8>, v: u32) {
    out.push((v & 0xFF) as u8);
    out.push(((v >> 8) & 0xFF) as u8);
    out.push(((v >> 16) & 0xFF) as u8);
    out.push(((v >> 24) & 0xFF) as u8);
}

fn mount_buffer(target: &str) -> Vec<u8> {
    let name = units(target);
    let mut out = Vec::new();
    push_u32(&mut out, 0xA0000003);
    push_u16(&mut out, (4 + 2 * name.len()) as u16); // data length
    push_u16(&mut out, 0); // reserved
    push_u16(&mut out, 0); // substitute name offset
    push_u16(&mut out, (2 * name.len()) as u16); // substitute name length
    push_u16(&mut out, 0); // print name offset
    push_u16(&mut out, 0); // print name length
    for u in name {
        push_u16(&mut out, u);
    }
    out
}

fn symlink_buffer(target: &str, relative: bool) -> Vec<u8> {
    let name = units(target);
    let mut out = Vec::new();
    push_u32(&mut out, 0xA000000C);
    push_u16(&mut out, (8 + 2 * name.len()) as u16);
    push_u16(&mut out, 0);
    push_u16(&mut out, 0);
    push_u16(&mut out, (2 * name.len()) as u16);
    push_u16(&mut out, 0);
    push_u16(&mut out, 0);
    push_u32(&mut out, if relative { 1 } else { 0 });
    for u in name {
        push_u16(&mut out, u);
    }
    out
}

fn fs(entries: Vec<(&str, Vec<u8>)>) -> FsModel {
    FsModel {
        links: entries
            .into_iter()
            .map(|(p, data)| LinkEntry { path: path(p), data })
            .collect(),
    }
}

#[test]
fn plain_path_resolves_to_itself() {
    let topology = fs(vec![]);
    let input = path("C:\\A\\B\\file.txt");
    let out = resolve_all_links(&input, &topology).unwrap();
    assert_eq!(out.len(), 1);
    assert!(path_eq(&out[0], &input));
}

#[test]
fn relative_symlink_is_normalized_without_dotdot() {
    let topology = fs(vec![("C:\\A\\link", symlink_buffer("..\\sibling", true))]);
    let out = resolve_all_links(&path("C:\\A\\link\\rest.txt"), &topology).unwrap();
    assert_eq!(out.len(), 2);
    assert!(path_eq(&out[0], &path("C:\\A\\link\\rest.txt")));
    assert!(path_eq(&out[1], &path("C:\\sibling\\rest.txt")));
    for p in &out {
        for comp in &p.components {
            assert_ne!(comp, &vec![DOT, DOT]);
        }
    }
}

#[test]
fn one_failing_path_does_not_abort_the_batch() {
    let topology = fs(vec![("C:\\A\\B", mount_buffer("\\??\\D:\\Target"))]);
    let bad = path("C:"); // no root component: resolution fails
    assert!(matches!(
        resolve_all_links(&bad, &topology),
        Err(ResolveError::NotAbsolute)
    ));
    let inputs = vec![bad, path("C:\\A\\B\\file.txt")];
    let out = resolve_all_links_multiple(&inputs, &topology);
    assert_eq!(out.len(), 2);
    assert!(out.iter().any(|p| path_eq(p, &path("C:\\A\\B\\file.txt"))));
    assert!(out.iter().any(|p| path_eq(p, &path("D:\\Target\\file.txt"))));
}

#[test]
fn junction_resolves_through_namespace_prefix() {
    let topology = fs(vec![("C:\\A\\B", mount_buffer("\\??\\D:\\Target"))]);
    let out = resolve_all_links(&path("C:\\A\\B\\file.txt"), &topology).unwrap();
    assert_eq!(out.len(), 2);
    assert!(path_eq(&out[1], &path("D:\\Target\\file.txt")));
}

#[test]
fn unknown_reparse_tag_is_not_followed() {
    let mut data = mount_buffer("\\??\\D:\\Target");
    data[3] = 0x80; // a tag this library does not follow
    assert!(matches!(
        decode_reparse(&data),
        Ok(ReparseTarget::Unrecognized)
    ));
    let topology = fs(vec![("C:\\A\\B", data)]);
    assert!(resolve_link(&path("C:\\A\\B"), &topology).unwrap().is_none());
}

#[test]
fn truncated_reparse_buffer_is_malformed() {
    let mut data = mount_buffer("\\??\\D:\\Target");
    data.truncate(10);
    assert!(matches!(decode_reparse(&data), Err(DecodeError::Malformed)));
    let topology = fs(vec![("C:\\A\\B", data)]);
    assert!(matches!(
        resolve_link(&path("C:\\A\\B"), &topology),
        Err(ResolveError::Malformed)
    ));
}

#[test]
fn cyclic_links_exhaust_the_depth_limit() {
    let topology = fs(vec![
        ("C:\\a\\x", mount_buffer("\\??\\C:\\b\\x")),
        ("C:\\b\\x", mount_buffer("\\??\\C:\\a\\x")),
    ]);
    assert!(matches!(
        resolve_all_links(&path("C:\\a\\x\\f"), &topology),
        Err(ResolveError::DepthExceeded)
    ));
}

#[test]
fn namespace_prefix_is_stripped() {
    assert_eq!(strip_namespace(&units("\\??\\C:\\x")), units("C:\\x"));
    assert_eq!(strip_namespace(&units("C:\\x")), units("C:\\x"));
}

#[test]
fn normalization_applies_dots_lexically() {
    let input = path("C:\\A\\.\\..\\B").components;
    let out = normalize(&input);
    assert_eq!(out.components, path("C:\\B").components);
    // `..` never removes the volume designator
    let clamped = normalize(&path("C:\\..\\..\\B").components);
    assert_eq!(clamped.components, path("C:\\B").components);
}

#[test]
fn incremental_walk_matches_batch_resolution() {
    let topology = fs(vec![
        ("C:\\A\\B", mount_buffer("\\??\\D:\\Target")),
        ("D:\\Target\\inner", symlink_buffer("..\\other", true)),
    ]);
    let input = path("C:\\A\\B\\inner\\file.txt");

    let batch = resolve_all_links(&input, &topology).unwrap();

    let mut walk = LinkWalk::start(&input);
    while let Some(partial) = walk.query() {
        let answer = match resolve_link(&partial, &topology) {
            Ok(Some(target)) => Some(target),
            _ => None,
        };
        walk.feed(answer.as_ref());
    }
    let stepped = walk.finish().unwrap();

    assert_eq!(stepped.len(), batch.len());
    for (a, b) in stepped.iter().zip(batch.iter()) {
        assert!(path_eq(a, b));
    }
    assert_eq!(stepped.len(), 3);
    assert!(path_eq(&stepped[1], &path("D:\\Target\\inner\\file.txt")));
    assert!(path_eq(&stepped[2], &path("D:\\other\\file.txt")));
}

#[test]
fn top_level_directory_junction_is_followed() {
    // The very first queried ancestor is the top-level directory itself.
    let topology = fs(vec![("C:\\A", mount_buffer("\\??\\D:\\Target"))]);
    let out = resolve_all_links(&path("C:\\A\\file.txt"), &topology).unwrap();
    assert_eq!(out.len(), 2);
    assert!(path_eq(&out[0], &path("C:\\A\\file.txt")));
    assert!(path_eq(&out[1], &path("D:\\Target\\file.txt")));
}

#[test]
fn top_level_relative_symlink_is_followed() {
    // `..` in a target at the top level cannot climb past the volume.
    let topology = fs(vec![("C:\\A", symlink_buffer("..\\sibling", true))]);
    let out = resolve_all_links(&path("C:\\A\\rest.txt"), &topology).unwrap();
    assert_eq!(out.len(), 2);
    assert!(path_eq(&out[1], &path("C:\\sibling\\rest.txt")));
    for p in &out {
        for comp in &p.components {
            assert_ne!(comp, &vec![DOT, DOT]);
        }
    }
}

#[test]
fn two_component_watched_path_is_queried_itself() {
    let topology = fs(vec![("C:\\A", mount_buffer("\\??\\D:\\Target"))]);
    let out = resolve_all_links(&path("C:\\A"), &topology).unwrap();
    assert_eq!(out.len(), 2);
    assert!(path_eq(&out[0], &path("C:\\A")));
    assert!(path_eq(&out[1], &path("D:\\Target")));
}
