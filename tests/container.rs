use liquid_breakout::binary::{ContainerFormatError, HEADER_LEN};
use liquid_breakout::container::{parse_container, sniff_encoding, Encoding};
use liquid_breakout::extract::extract_scripts;
use liquid_breakout::report::{scan_scripts, ParsedScript};
use liquid_breakout::rules::{Argument, CallArgs, CallChain, CallPrefix, CallSuffix};
use liquid_breakout::tree::AssetNode;

const SIGNATURE: [u8; 14] = [60, 114, 111, 98, 108, 111, 120, 33, 0x89, 0xFF, 0x0D, 0x0A, 0x1A, 0x0A];

fn header(classes: u32, instances: u32) -> Vec<u8> {
    let mut h = SIGNATURE.to_vec();
    h.extend_from_slice(&0u16.to_le_bytes());
    h.extend_from_slice(&classes.to_le_bytes());
    h.extend_from_slice(&instances.to_le_bytes());
    h.extend_from_slice(&[0u8; 8]);
    h
}

fn text(s: &str) -> Vec<u8> {
    let mut v = (s.len() as u32).to_le_bytes().to_vec();
    v.extend_from_slice(s.as_bytes());
    v
}

fn referents(values: &[i32]) -> Vec<u8> {
    let mut words = Vec::new();
    let mut last = 0i32;
    for &v in values {
        let d = v - last;
        last = v;
        words.push(((d << 1) ^ (d >> 31)) as u32);
    }
    let mut out = vec![0u8; 4 * values.len()];
    for (i, w) in words.iter().enumerate() {
        let b = w.to_be_bytes();
        for k in 0..4 {
            out[k * values.len() + i] = b[k];
        }
    }
    out
}

fn chunk(tag: &[u8; 4], data: &[u8], compress: bool) -> Vec<u8> {
    let mut c = tag.to_vec();
    if compress {
        let packed = lz4_flex::block::compress(data);
        c.extend_from_slice(&(packed.len() as u32).to_le_bytes());
        c.extend_from_slice(&(data.len() as u32).to_le_bytes());
        c.extend_from_slice(&[0u8; 4]);
        c.extend_from_slice(&packed);
    } else {
        c.extend_from_slice(&0u32.to_le_bytes());
        c.extend_from_slice(&(data.len() as u32).to_le_bytes());
        c.extend_from_slice(&[0u8; 4]);
        c.extend_from_slice(data);
    }
    c
}

fn inst(class_id: u32, class: &str, refs: &[i32]) -> Vec<u8> {
    let mut d = class_id.to_le_bytes().to_vec();
    d.extend(text(class));
    d.push(0);
    d.extend_from_slice(&(refs.len() as u32).to_le_bytes());
    d.extend(referents(refs));
    d
}

fn prop_strings(class_id: u32, name: &str, values: &[&str]) -> Vec<u8> {
    let mut d = class_id.to_le_bytes().to_vec();
    d.extend(text(name));
    d.push(1);
    for v in values {
        d.extend(text(v));
    }
    d
}

fn prnt(children: &[i32], parents: &[i32]) -> Vec<u8> {
    let mut d = vec![0u8];
    d.extend_from_slice(&(children.len() as u32).to_le_bytes());
    d.extend(referents(children));
    d.extend(referents(parents));
    d
}

const LOADER: &str = "local e = getfenv(); setfenv(1, e)";
const NET: &str = "print(\"ok\")";

/// A folder `Main` holding the scripts `Loader` and `Net`, and a part beside it.
fn two_script_asset(compress: bool) -> Vec<u8> {
    let mut b = header(3, 4);
    b.extend(chunk(b"INST", &inst(0, "Folder", &[0]), compress));
    b.extend(chunk(b"INST", &inst(1, "Script", &[1, 2]), compress));
    b.extend(chunk(b"INST", &inst(2, "Part", &[3]), compress));
    b.extend(chunk(b"META", &[1, 2, 3], compress));
    b.extend(chunk(b"PROP", &prop_strings(0, "Name", &["Main"]), compress));
    b.extend(chunk(b"PROP", &prop_strings(1, "Name", &["Loader", "Net"]), compress));
    b.extend(chunk(b"PROP", &prop_strings(1, "Source", &[LOADER, NET]), compress));
    b.extend(chunk(b"PROP", &prop_strings(2, "Name", &["Base"]), compress));
    b.extend(chunk(b"PRNT", &prnt(&[0, 1, 2, 3], &[-1, 0, 0, -1]), compress));
    b.extend(chunk(b"END\0", b"</roblox>", false));
    b
}

fn scripts_of(b: &[u8]) -> Vec<(String, String)> {
    let tree = parse_container(b).unwrap_or_else(|e| panic!("decode failed: {:?}", e));
    extract_scripts(&tree).into_iter().map(|u| (u.location, u.source)).collect()
}

fn call_at(source: &str, needle: &str, args: Vec<Argument>) -> CallChain {
    CallChain {
        offset: source.find(needle).unwrap(),
        prefix: CallPrefix::Name(needle.to_string()),
        suffixes: vec![CallSuffix::Call(CallArgs::Parentheses(args))],
    }
}

#[test]
fn binary_asset_tree() {
    let tree = parse_container(&two_script_asset(false)).unwrap();
    assert_eq!(tree.class_name, "");
    assert_eq!(tree.display_name, "");
    assert_eq!(tree.children.len(), 2);
    let main = &tree.children[0];
    assert_eq!((main.class_name.as_str(), main.display_name.as_str()), ("Folder", "Main"));
    assert_eq!(main.children.len(), 2);
    assert_eq!(main.children[0].display_name, "Loader");
    assert_eq!(main.children[1].display_name, "Net");
    assert_eq!(main.children[0].properties.len(), 1);
    assert_eq!(main.children[0].properties[0].name, "Source");
    assert_eq!(main.children[0].properties[0].value, LOADER);
    assert_eq!(tree.children[1].class_name, "Part");
    assert_eq!(tree.children[1].display_name, "Base");
}

#[test]
fn binary_asset_scripts() {
    let expected = vec![
        ("Main.Loader".to_string(), LOADER.to_string()),
        ("Main.Net".to_string(), NET.to_string()),
    ];
    assert_eq!(scripts_of(&two_script_asset(false)), expected);
    assert_eq!(sniff_encoding(&two_script_asset(false)), Some(Encoding::Binary));
}

#[test]
fn compressed_chunks_decode_alike() {
    assert_eq!(scripts_of(&two_script_asset(true)), scripts_of(&two_script_asset(false)));
}

#[test]
fn two_scripts_end_to_end() {
    let tree = parse_container(&two_script_asset(true)).unwrap();
    let units = extract_scripts(&tree);
    let parsed: Vec<ParsedScript> = units
        .into_iter()
        .map(|unit| {
            let calls = if unit.source == LOADER {
                vec![
                    call_at(LOADER, "getfenv", vec![]),
                    call_at(LOADER, "setfenv", vec![Argument::Number("1".to_string()), Argument::Other]),
                ]
            } else {
                vec![call_at(NET, "print", vec![Argument::Other])]
            };
            ParsedScript { unit, calls: Ok(calls) }
        })
        .collect();
    let report = match scan_scripts(&parsed) {
        Ok(r) => r,
        Err(_) => panic!("no syntax error expected"),
    };
    assert!(report.is_malicious);
    assert_eq!(report.findings.len(), 2);
    assert_eq!(report.findings[0].rule_id(), "global-env-read");
    assert_eq!(report.findings[1].rule_id(), "global-env-write");
    assert!(report.findings.iter().all(|f| f.script_location == "Main.Loader"));
    assert!(!report.findings.iter().any(|f| f.script_location == "Main.Net"));
    assert_eq!((report.findings[0].line, report.findings[0].column), (1, 11));
    assert_eq!((report.findings[1].line, report.findings[1].column), (1, 22));
}

#[test]
fn asset_without_code_is_clean() {
    let mut b = header(1, 2);
    b.extend(chunk(b"INST", &inst(0, "Part", &[5, 9]), false));
    b.extend(chunk(b"PROP", &prop_strings(0, "Name", &["A", "B"]), false));
    b.extend(chunk(b"PRNT", &prnt(&[5, 9], &[-1, 5]), false));
    b.extend(chunk(b"END\0", b"", false));
    let tree = parse_container(&b).unwrap();
    assert_eq!(tree.children.len(), 1);
    assert_eq!(tree.children[0].children[0].display_name, "B");
    let units = extract_scripts(&tree);
    assert!(units.is_empty());
    let report = match scan_scripts(&vec![]) {
        Ok(r) => r,
        Err(_) => panic!("no scripts, no syntax error"),
    };
    assert!(!report.is_malicious);
    assert!(report.findings.is_empty());
}

#[test]
fn truncated_header_is_refused() {
    let full = two_script_asset(false);
    for cut in 0..HEADER_LEN {
        assert!(parse_container(&full[..cut]).is_err(), "prefix of {} bytes", cut);
    }
    for cut in 0..HEADER_LEN {
        assert_eq!(parse_container(&full[..cut]).err(), Some(ContainerFormatError::Truncated));
    }
}

#[test]
fn truncated_stream_is_refused() {
    let full = two_script_asset(false);
    for cut in HEADER_LEN..full.len() {
        assert!(parse_container(&full[..cut]).is_err(), "prefix of {} bytes", cut);
    }
    let packed = two_script_asset(true);
    for cut in HEADER_LEN..packed.len() {
        assert!(parse_container(&packed[..cut]).is_err(), "prefix of {} bytes", cut);
    }
}

#[test]
fn bad_magic_and_version() {
    assert_eq!(parse_container(b"PK\x03\x04 not an asset at all, really no").err(), Some(ContainerFormatError::BadMagic));
    assert_eq!(parse_container(b"").err(), Some(ContainerFormatError::Truncated));
    assert_eq!(parse_container(b"<rox").err(), Some(ContainerFormatError::BadMagic));
    let mut b = two_script_asset(false);
    b[14] = 1;
    assert_eq!(parse_container(&b).err(), Some(ContainerFormatError::UnsupportedVersion));
    let mut b = two_script_asset(false);
    b[9] = 0;
    assert_eq!(parse_container(&b).err(), Some(ContainerFormatError::BadMagic));
}

#[test]
fn broken_links_are_refused() {
    let mut b = header(1, 2);
    b.extend(chunk(b"INST", &inst(0, "Model", &[1, 2]), false));
    b.extend(chunk(b"PRNT", &prnt(&[1, 7], &[-1, 1]), false));
    b.extend(chunk(b"END\0", b"", false));
    assert_eq!(parse_container(&b).err(), Some(ContainerFormatError::BadTree));
    let mut c = header(1, 2);
    c.extend(chunk(b"INST", &inst(0, "Model", &[1, 2]), false));
    c.extend(chunk(b"PRNT", &prnt(&[1, 2], &[2, 1]), false));
    c.extend(chunk(b"END\0", b"", false));
    let tree = parse_container(&c).unwrap();
    assert!(tree.children.is_empty());
    let mut d = header(1, 1);
    d.extend(chunk(b"INST", &inst(0, "Model", &[1]), false));
    d.extend(chunk(b"PRNT", &prnt(&[1], &[1]), false));
    d.extend(chunk(b"PRNT", &prnt(&[1], &[-1]), false));
    d.extend(chunk(b"END\0", b"", false));
    assert_eq!(parse_container(&d).err(), Some(ContainerFormatError::BadTree));
}

#[test]
fn bad_chunks_are_refused() {
    let mut b = header(1, 1);
    b.extend(chunk(b"PROP", &prop_strings(4, "Name", &["x"]), false));
    b.extend(chunk(b"END\0", b"", false));
    assert_eq!(parse_container(&b).err(), Some(ContainerFormatError::BadChunk));
    let mut c = header(1, 1);
    c.extend(chunk(b"INST", &inst(0, "Model", &[1]), false));
    c.extend(chunk(b"PROP", &[0, 0, 0, 0, 4, 0, 0, 0, 78, 97, 109, 101, 1, 0xFF, 0, 0, 0], false));
    c.extend(chunk(b"END\0", b"", false));
    assert_eq!(parse_container(&c).err(), Some(ContainerFormatError::BadChunk));
    let mut d = header(1, 1);
    d.extend(chunk(b"INST", &inst(0, "Model", &[1]), false));
    d.extend(chunk(b"PROP", &prop_strings(0, "Name", &["\u{e9}"]), false));
    let n = d.len();
    d[n - 2] = 0xC3;
    d[n - 1] = 0x28;
    d.extend(chunk(b"END\0", b"", false));
    assert_eq!(parse_container(&d).err(), Some(ContainerFormatError::BadText));
    let mut e = header(1, 1);
    let mut bad = tag_chunk_with_bad_lz4();
    e.append(&mut bad);
    e.extend(chunk(b"END\0", b"", false));
    assert_eq!(parse_container(&e).err(), Some(ContainerFormatError::Truncated));
}

fn tag_chunk_with_bad_lz4() -> Vec<u8> {
    let mut c = b"INST".to_vec();
    c.extend_from_slice(&4u32.to_le_bytes());
    c.extend_from_slice(&100u32.to_le_bytes());
    c.extend_from_slice(&[0u8; 4]);
    c.extend_from_slice(&[0xF0, 0xFF, 0xFF, 0xFF]);
    c
}

const XML_ASSET: &str = r#"<roblox xmlns:xmime="http://www.w3.org/2005/05/xmlmime" version="4">
	<Meta name="ExplicitAutoJoints">true</Meta>
	<External>null</External>
	<!-- saved by a tool -->
	<Item class="Folder" referent="RBX1">
		<Properties>
			<string name="Name">Main</string>
		</Properties>
		<Item class="Script" referent="RBX2">
			<Properties>
				<bool name="Disabled">false</bool>
				<string name="Name">Loader</string>
				<ProtectedString name="Source"><![CDATA[local e = getfenv(); setfenv(1, e)]]></ProtectedString>
				<CoordinateFrame name="CFrame"><X>0</X></CoordinateFrame>
			</Properties>
		</Item>
		<Item class="LocalScript" referent='RBX3'>
			<Properties>
				<string name="Name">A &amp; B</string>
				<ProtectedString name="Source">print(&quot;ok&quot;)&#10;x = 1 &lt; 2 &#x263A;</ProtectedString>
			</Properties>
		</Item>
		<Item class="ModuleScript" referent="RBX4"/>
	</Item>
</roblox>
"#;

#[test]
fn xml_asset_scripts() {
    assert_eq!(sniff_encoding(XML_ASSET.as_bytes()), Some(Encoding::Xml));
    let scripts = scripts_of(XML_ASSET.as_bytes());
    assert_eq!(
        scripts,
        vec![
            ("Main.Loader".to_string(), LOADER.to_string()),
            ("Main.A & B".to_string(), "print(\"ok\")\nx = 1 < 2 \u{263A}".to_string()),
            ("Main.".to_string(), "".to_string()),
        ]
    );
}

#[test]
fn xml_asset_tree() {
    let tree: AssetNode = parse_container(XML_ASSET.as_bytes()).unwrap();
    assert_eq!(tree.children.len(), 1);
    let loader = &tree.children[0].children[0];
    assert_eq!(loader.class_name, "Script");
    let names: Vec<&str> = loader.properties.iter().map(|p| p.name.as_str()).collect();
    assert_eq!(names, vec!["Disabled", "Source"]);
    assert_eq!(loader.properties[0].value, "false");
}

#[test]
fn malformed_xml_is_refused() {
    let cases = [
        "<roblox version=\"4\">",
        "<roblox><Item class=\"Script\"></Item>",
        "<roblox><Item class=\"Script\"></Other></roblox>",
        "<roblox><Item><Properties/></Item></roblox>",
        "<roblox><Item class=\"Script\"><Properties><string name=\"Name\">a &bogus; b</string></Properties></Item></roblox>",
        "<roblox a=b></roblox>",
        "<roblox><![CDATA[never closed</roblox>",
    ];
    for c in cases.iter() {
        assert!(parse_container(c.as_bytes()).is_err(), "{}", c);
    }
    assert_eq!(parse_container(b"<roblo").err(), Some(ContainerFormatError::Truncated));
    assert_eq!(parse_container(b"<robloz").err(), Some(ContainerFormatError::BadMagic));
    let empty = parse_container(b"<roblox/>").unwrap();
    assert!(empty.children.is_empty());
}

#[test]
fn decoding_twice_gives_the_same_scripts() {
    let a = two_script_asset(true);
    assert_eq!(scripts_of(&a), scripts_of(&a.clone()));
    assert_eq!(scripts_of(XML_ASSET.as_bytes()), scripts_of(XML_ASSET.as_bytes()));
}

#[test]
fn repeated_child_links_are_refused() {
    let mut b = header(1, 2);
    b.extend(chunk(b"INST", &inst(0, "Model", &[1, 2]), false));
    b.extend(chunk(b"PRNT", &prnt(&[1, 2, 2], &[-1, 1, 1]), false));
    b.extend(chunk(b"END\0", b"", false));
    assert_eq!(parse_container(&b).err(), Some(ContainerFormatError::BadTree));
}

fn folder_chain(n: i32, chained: bool) -> Vec<u8> {
    let refs: Vec<i32> = (0..n).collect();
    let names: Vec<String> = (0..n).map(|i| format!("P{}", i)).collect();
    let name_refs: Vec<&str> = names.iter().map(|s| s.as_str()).collect();
    let parents: Vec<i32> = if chained { (0..n).map(|i| i - 1).collect() } else { vec![-1; n as usize] };
    let mut b = header(1, n as u32);
    b.extend(chunk(b"INST", &inst(0, "Folder", &refs), true));
    b.extend(chunk(b"PROP", &prop_strings(0, "Name", &name_refs), true));
    b.extend(chunk(b"PRNT", &prnt(&refs, &parents), true));
    b.extend(chunk(b"END\0", b"", false));
    b
}

fn count_nodes(tree: &AssetNode) -> usize {
    let mut count = 0usize;
    let mut stack = vec![tree];
    while let Some(node) = stack.pop() {
        count += 1;
        stack.extend(node.children.iter());
    }
    count
}

#[test]
fn large_flat_asset_decodes() {
    let tree = parse_container(&folder_chain(20000, false)).unwrap();
    assert_eq!(tree.children.len(), 20000);
    assert_eq!(count_nodes(&tree), 20001);
    assert_eq!(tree.children[19999].display_name, "P19999");
}

#[test]
fn nesting_is_bounded() {
    let deep = parse_container(&folder_chain(256, true)).unwrap();
    assert_eq!(count_nodes(&deep), 257);
    let scripts = extract_scripts(&deep);
    assert!(scripts.is_empty());
    assert_eq!(parse_container(&folder_chain(257, true)).err(), Some(ContainerFormatError::BadTree));
    assert_eq!(parse_container(&folder_chain(20000, true)).err(), Some(ContainerFormatError::BadTree));
    let mut xml = String::from("<roblox>");
    for _ in 0..100000 {
        xml.push_str("<Item class=\"Folder\">");
    }
    assert_eq!(parse_container(xml.as_bytes()).err(), Some(ContainerFormatError::BadDocument));
}

#[test]
fn xml_text_must_be_utf8() {
    let mut doc = b"<roblox><Item class=\"Script\"><Properties><string name=\"Name\">A".to_vec();
    doc.push(0xFF);
    doc.extend_from_slice(b"</string></Properties></Item></roblox>");
    assert_eq!(parse_container(&doc).err(), Some(ContainerFormatError::BadText));
    let mut cdata = b"<roblox><Item class=\"Script\"><Properties><ProtectedString name=\"Source\"><![CDATA[".to_vec();
    cdata.extend_from_slice(&[0xC3, 0x28]);
    cdata.extend_from_slice(b"]]></ProtectedString></Properties></Item></roblox>");
    assert_eq!(parse_container(&cdata).err(), Some(ContainerFormatError::BadText));
}

#[test]
fn xml_cut_inside_its_opening_tag_is_refused() {
    let doc = XML_ASSET.as_bytes();
    let close = doc.iter().position(|&c| c == b'>').unwrap();
    for cut in 8..=close {
        assert!(parse_container(&doc[..cut]).is_err(), "prefix of {} bytes", cut);
    }
    for cut in close + 1..doc.len() - 1 {
        assert!(parse_container(&doc[..cut]).is_err(), "prefix of {} bytes", cut);
    }
}
