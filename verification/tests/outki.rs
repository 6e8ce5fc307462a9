use putki::binreader::{BinDataStream, BinReader};
use putki::manifest::{OutkiError, OutkiResult, PackageManifest};
use putki::outki::{BinLoader, BinPackageManager, BinResolverContext, NullablePtr, OutkiObj, Package, Ptr};
use putki::shared::{PutkiError, TypeDescriptor};
use putki::lexed::LexedKv;
use putki::lexer::{get_int, get_string};
use putki::loadall::LoadAll;
use putki::pipeline::{
    write_package, BuildCandidate, BuildFields, BuildRecord, InkiObj, PackageRecipe, Pipeline, PipelineDesc, PtrBox,
};
use putki::ptr::{ptr_from_data, Ptr as InkiPtr};
use putki::source::{InkiResolver, ParseFromKV, WriteAsText};
use putki::writer::{BinSaver, BinWriter, PackageRefs};
use std::sync::Arc;

struct PointedTo {
    value1: u8,
    value2: i32,
}

struct PtrStruct {
    pub ptr: NullablePtr<PointedTo>,
    pub sib: NullablePtr<PtrStruct>,
}

struct PtrStructNotNull {
    pub ptr: Ptr<PointedTo>,
    pub sib: Ptr<PtrStructNotNull>,
}

impl BinLoader for PointedTo {
    fn read(stream: &mut BinDataStream) -> OutkiResult<Self> {
        Ok(Self { value1: u8::read(stream)?, value2: i32::read(stream)? })
    }
}

impl BinLoader for PtrStruct {
    fn read(stream: &mut BinDataStream) -> OutkiResult<Self> {
        Ok(Self { ptr: NullablePtr::<PointedTo>::read(stream)?, sib: NullablePtr::<PtrStruct>::read(stream)? })
    }
    fn resolve(&mut self, context: &mut BinResolverContext) -> OutkiResult<()> {
        context.resolve(&mut self.ptr)?;
        context.resolve(&mut self.sib)?;
        Ok(())
    }
}

impl BinLoader for PtrStructNotNull {
    fn read(stream: &mut BinDataStream) -> OutkiResult<Self> {
        Ok(Self { ptr: Ptr::<PointedTo>::read(stream)?, sib: Ptr::<PtrStructNotNull>::read(stream)? })
    }
    fn resolve(&mut self, context: &mut BinResolverContext) -> OutkiResult<()> {
        context.resolve_not_null(&mut self.ptr)?;
        context.resolve_not_null(&mut self.sib)?;
        Ok(())
    }
}

impl TypeDescriptor for PointedTo {
    const TAG: &'static str = "PointedTo";
}

impl TypeDescriptor for PtrStruct {
    const TAG: &'static str = "PtrStruct";
}

impl TypeDescriptor for PtrStructNotNull {
    const TAG: &'static str = "PtrStructNotNull";
}

impl OutkiObj for PointedTo {}
impl OutkiObj for PtrStruct {}
impl OutkiObj for PtrStructNotNull {}

#[test]
fn unpack_simple() {
    let mut pkg_data: Vec<u8> = Vec::new();
    let mut pkg = PackageManifest::new();
    pkg.add_obj::<PointedTo>(&mut pkg_data, Some("pto1"), &[123, 100, 2, 0, 0]);

    let mut pm = BinPackageManager::new();
    pm.insert(Package::from_manifest(pkg, pkg_data));

    let k = pm.resolve::<PointedTo>("pto1");
    assert_eq!(k.is_ok(), true);
    let rf = k.unwrap();
    assert_eq!(rf.get().value1, 123);
    assert_eq!(rf.get().value2, 256 * 2 + 100);
}

fn complex_package() -> BinPackageManager {
    let mut pkg_data: Vec<u8> = Vec::new();
    let mut pkg = PackageManifest::new();
    pkg.add_obj::<PtrStructNotNull>(&mut pkg_data, Some("ptr1"), &[2, 0, 0, 0, 1, 0, 0, 0]);
    pkg.add_obj::<PtrStructNotNull>(&mut pkg_data, Some("ptr2"), &[3, 0, 0, 0, 0, 0, 0, 0]);
    pkg.add_obj::<PointedTo>(&mut pkg_data, Some("pto1"), &[123, 100, 2, 0, 0]);
    pkg.add_obj::<PointedTo>(&mut pkg_data, Some("pto2"), &[124, 100, 3, 0, 0]);
    let mut pm = BinPackageManager::new();
    pm.insert(Package::from_manifest(pkg, pkg_data));
    pm
}

#[test]
fn unpack_complex() {
    let mut pkg_data: Vec<u8> = Vec::new();
    let mut pkg = PackageManifest::new();
    pkg.add_obj::<PtrStruct>(&mut pkg_data, Some("ptr1"), &[2, 0, 0, 0, 1, 0, 0, 0]);
    pkg.add_obj::<PtrStruct>(&mut pkg_data, Some("ptr2"), &[3, 0, 0, 0, 0, 0, 0, 0]);
    pkg.add_obj::<PointedTo>(&mut pkg_data, Some("pto1"), &[123, 100, 2, 0, 0]);
    pkg.add_obj::<PointedTo>(&mut pkg_data, Some("pto2"), &[124, 100, 3, 0, 0]);
    let mut pm = BinPackageManager::new();
    pm.insert(Package::from_manifest(pkg, pkg_data));

    {
        let k = pm.resolve::<PtrStruct>("ptr1");
        assert_eq!(k.is_ok(), true);
        let w = k.unwrap();
        assert_eq!(w.get().ptr.get().unwrap().get().value1, 123);
        assert_eq!(w.get().ptr.get().unwrap().get().value2, 256 * 2 + 100);
        let sib = w.get().sib.get().unwrap();
        assert_eq!(sib.get().ptr.get().unwrap().get().value1, 124);
        assert_eq!(sib.get().ptr.get().unwrap().get().value2, 256 * 3 + 100);
        let sib_sib = sib.get().sib.get().unwrap();
        assert_eq!(sib_sib.get().ptr.get().unwrap().get().value1, 123);
        assert_eq!(sib_sib.get().ptr.get().unwrap().get().value2, 256 * 2 + 100);
    }
    {
        let k: OutkiResult<putki::outki::Ref<PtrStruct>> = pm.resolve("ptr2");
        assert_eq!(k.is_ok(), true);
        let w = k.unwrap();
        assert_eq!(w.get().ptr.get().unwrap().get().value1, 124);
        assert_eq!(w.get().ptr.get().unwrap().get().value2, 256 * 3 + 100);
    }
}

#[test]
fn unpack_not_null_complex() {
    let pm = complex_package();
    {
        let k = pm.resolve::<PtrStructNotNull>("ptr1");
        assert_eq!(k.is_ok(), true);
        let w = k.unwrap();
        let ptr = w.get().ptr.get().unwrap();
        assert_eq!(ptr.get().value1, 123);
        assert_eq!(ptr.get().value2, 256 * 2 + 100);
        let sib = w.get().sib.get().unwrap();
        let sib_ptr = sib.get().ptr.get().unwrap();
        assert_eq!(sib_ptr.get().value1, 124);
        assert_eq!(sib_ptr.get().value2, 256 * 3 + 100);
        let sib_sib = sib.get().sib.get().unwrap();
        let sib_sib_ptr = sib_sib.get().ptr.get().unwrap();
        assert_eq!(sib_sib_ptr.get().value1, 123);
        assert_eq!(sib_sib_ptr.get().value2, 256 * 2 + 100);
    }
}

#[test]
fn unpack_not_null_complex_failure() {
    let mut pkg_data: Vec<u8> = Vec::new();
    let mut pkg = PackageManifest::new();
    pkg.add_obj::<PtrStructNotNull>(&mut pkg_data, Some("ptr1"), &[255, 255, 255, 255, 1, 0, 0, 0]);
    let pm = BinPackageManager::new();
    {
        let k = pm.resolve::<PtrStructNotNull>("ptr1");
        assert_eq!(k.is_err(), true);
    }
}

#[test]
fn a_null_non_null_pointer_fails_the_resolve() {
    let mut pkg_data: Vec<u8> = Vec::new();
    let mut pkg = PackageManifest::new();
    pkg.add_obj::<PtrStructNotNull>(&mut pkg_data, Some("ptr1"), &[255, 255, 255, 255, 0, 0, 0, 0]);
    let mut pm = BinPackageManager::new();
    pm.insert(Package::from_manifest(pkg, pkg_data));
    assert!(matches!(pm.resolve::<PtrStructNotNull>("ptr1"), Err(OutkiError::NonNullIsNull)));
}

#[test]
fn a_pointer_past_the_slots_fails_the_resolve() {
    let mut pkg_data: Vec<u8> = Vec::new();
    let mut pkg = PackageManifest::new();
    pkg.add_obj::<PtrStructNotNull>(&mut pkg_data, Some("ptr1"), &[9, 0, 0, 0, 0, 0, 0, 0]);
    let mut pm = BinPackageManager::new();
    pm.insert(Package::from_manifest(pkg, pkg_data));
    assert!(matches!(pm.resolve::<PtrStructNotNull>("ptr1"), Err(OutkiError::SlotNotFound)));
}

#[test]
fn a_short_payload_is_an_error() {
    let mut pkg_data: Vec<u8> = Vec::new();
    let mut pkg = PackageManifest::new();
    pkg.add_obj::<PointedTo>(&mut pkg_data, Some("pto1"), &[123, 100]);
    let mut pm = BinPackageManager::new();
    pm.insert(Package::from_manifest(pkg, pkg_data));
    assert!(matches!(pm.resolve::<PointedTo>("pto1"), Err(OutkiError::DataMissing)));
    assert!(matches!(pm.resolve::<PointedTo>("nothing"), Err(OutkiError::ResolveFailed)));
}

#[test]
fn old_style_package_insert() {
    let mut pkg = Package::new();
    pkg.insert(Some("a"), "PointedTo", &[1, 2, 0, 0, 0]);
    pkg.insert(Some("b"), "PointedTo", &[3, 4, 0, 0, 0]);
    let mut pm = BinPackageManager::new();
    pm.insert(pkg);
    let b = pm.resolve::<PointedTo>("b").unwrap();
    assert_eq!(b.get().value1, 3);
    assert_eq!(b.get().value2, 4);
}

// Polymorphic types are a u16 variant index, then that variant's fields.
struct IRootData {}

struct Sub1 {
    _root: IRootData,
    value: i32,
}

struct SubRootData {
    _root: IRootData,
}

enum SubRoot {
    Pure(SubRootData),
}

enum IRoot {
    Pure(IRootData),
    Sub1(Sub1),
    SubRoot(SubRoot),
}

impl BinLoader for IRoot {
    fn read(stream: &mut BinDataStream) -> OutkiResult<Self> {
        match u16::read(stream)? {
            0 => Ok(IRoot::Pure(IRootData {})),
            1 => Ok(IRoot::Sub1(Sub1 { _root: IRootData {}, value: i32::read(stream)? })),
            2 => match u16::read(stream)? {
                0 => Ok(IRoot::SubRoot(SubRoot::Pure(SubRootData { _root: IRootData {} }))),
                _ => Err(OutkiError::DataMissing),
            },
            _ => Err(OutkiError::DataMissing),
        }
    }
}

impl TypeDescriptor for IRoot {
    const TAG: &'static str = "IRoot";
}

impl OutkiObj for IRoot {}

#[test]
fn unpack_enum() {
    let mut pm = BinPackageManager::new();
    let mut pkg = Package::new();
    pkg.insert(Some("subroot"), "SubRoot", &[2, 0, 0, 0]);
    pkg.insert(Some("sub1"), "Sub1", &[1, 0, 123, 0, 0, 0]);
    pm.insert(pkg);
    let k = pm.resolve::<IRoot>("subroot");
    assert_eq!(k.is_ok(), true);
    let l = pm.resolve::<IRoot>("sub1");
    assert_eq!(l.is_ok(), true);
    let k = l.unwrap();
    if let IRoot::Sub1(s1) = k.get() {
        assert_eq!(s1.value, 123);
    } else {
        panic!("sub1 wasn't sub1");
    }
}

// A dialog with two polymorphic node pointers, as the generated loaders
// read it.
struct IDlgNodeData {
    id: String,
}

struct DlgSay {
    parent: IDlgNodeData,
    text: String,
    who: i32,
}

enum IDlgNode {
    IDlgNode(IDlgNodeData),
    DlgSay(DlgSay),
}

struct Dialog {
    id: String,
    node1: Ptr<IDlgNode>,
    node2: Ptr<IDlgNode>,
}

impl BinLoader for IDlgNode {
    fn read(stream: &mut BinDataStream) -> OutkiResult<Self> {
        match u16::read(stream)? {
            0 => Ok(IDlgNode::IDlgNode(IDlgNodeData { id: String::read(stream)? })),
            1 => Ok(IDlgNode::DlgSay(DlgSay {
                parent: IDlgNodeData { id: String::read(stream)? },
                text: String::read(stream)?,
                who: i32::read(stream)?,
            })),
            _ => Err(OutkiError::DataMissing),
        }
    }
}

impl BinLoader for Dialog {
    fn read(stream: &mut BinDataStream) -> OutkiResult<Self> {
        Ok(Dialog {
            id: String::read(stream)?,
            node1: Ptr::read(stream)?,
            node2: Ptr::read(stream)?,
        })
    }
    fn resolve(&mut self, context: &mut BinResolverContext) -> OutkiResult<()> {
        context.resolve_not_null(&mut self.node1)?;
        context.resolve_not_null(&mut self.node2)
    }
}

impl TypeDescriptor for IDlgNode {
    const TAG: &'static str = "IDlgNode";
    const TYPE_ID: usize = 2;
}

impl TypeDescriptor for Dialog {
    const TAG: &'static str = "Dialog";
    const TYPE_ID: usize = 1;
}

impl OutkiObj for IDlgNode {}
impl OutkiObj for Dialog {}

// The same dialog on the build side, as generated code writes it: a
// polymorphic node is its variant index as a `u16`, then its fields.
#[derive(Clone)]
enum InkiNode {
    Missing,
    Base { id: String },
    Say { id: String, text: String, who: i32 },
}

#[derive(Clone, Default)]
struct InkiDialog {
    id: String,
    node1: InkiPtr<InkiNode, LoadAll>,
    node2: InkiPtr<InkiNode, LoadAll>,
}

enum Built {
    Dialog(PtrBox<InkiDialog, LoadAll>),
    Node(PtrBox<InkiNode, LoadAll>),
}

impl From<PtrBox<InkiDialog, LoadAll>> for Built {
    fn from(b: PtrBox<InkiDialog, LoadAll>) -> Built {
        Built::Dialog(b)
    }
}

impl From<PtrBox<InkiNode, LoadAll>> for Built {
    fn from(b: PtrBox<InkiNode, LoadAll>) -> Built {
        Built::Node(b)
    }
}

impl BinSaver for Built {
    fn write(&self, data: &mut Vec<u8>, refs: &PackageRefs) -> Result<(), PutkiError> {
        match self {
            Built::Dialog(b) => b.write(data, refs),
            Built::Node(b) => b.write(data, refs),
        }
    }
}

impl Default for InkiNode {
    fn default() -> Self {
        InkiNode::Missing
    }
}

impl TypeDescriptor for InkiNode {
    const TAG: &'static str = "IDlgNode";
    const TYPE_ID: usize = 2;
}

impl TypeDescriptor for InkiDialog {
    const TAG: &'static str = "Dialog";
    const TYPE_ID: usize = 1;
}

impl ParseFromKV<LoadAll> for InkiNode {
    fn parse(kv: &LexedKv, _r: &Arc<InkiResolver<LoadAll>>) -> Self {
        InkiNode::Base { id: get_string(kv.get("Id"), "") }
    }
    fn parse_with_type(kv: &LexedKv, r: &Arc<InkiResolver<LoadAll>>, type_tag: &str) -> Self {
        if type_tag == "DlgSay" {
            InkiNode::Say {
                id: get_string(kv.get("Id"), ""),
                text: get_string(kv.get("Text"), ""),
                who: get_int(kv.get("Who"), 0),
            }
        } else {
            Self::parse(kv, r)
        }
    }
}

impl ParseFromKV<LoadAll> for InkiDialog {
    fn parse(kv: &LexedKv, r: &Arc<InkiResolver<LoadAll>>) -> Self {
        InkiDialog {
            id: get_string(kv.get("Id"), ""),
            node1: kv.get("Node1").map(|v| ptr_from_data(r, v)).unwrap_or_default(),
            node2: kv.get("Node2").map(|v| ptr_from_data(r, v)).unwrap_or_default(),
        }
    }
}

impl WriteAsText for InkiNode {
    fn write_text(&self, _output: &mut String) -> Result<(), PutkiError> {
        Ok(())
    }
}

impl WriteAsText for InkiDialog {
    fn write_text(&self, _output: &mut String) -> Result<(), PutkiError> {
        Ok(())
    }
}

impl BinSaver for InkiNode {
    fn write(&self, data: &mut Vec<u8>, _refs: &PackageRefs) -> Result<(), PutkiError> {
        match self {
            InkiNode::Missing => Err(PutkiError::ObjectNotFound),
            InkiNode::Base { id } => {
                0u16.write(data);
                id.write(data);
                Ok(())
            }
            InkiNode::Say { id, text, who } => {
                1u16.write(data);
                id.write(data);
                text.write(data);
                who.write(data);
                Ok(())
            }
        }
    }
}

impl BinSaver for InkiDialog {
    fn write(&self, data: &mut Vec<u8>, refs: &PackageRefs) -> Result<(), PutkiError> {
        self.id.write(data);
        self.node1.write(data, refs)?;
        self.node2.write(data, refs)
    }
}

impl BuildFields<LoadAll, Built> for InkiNode {}
impl BuildFields<LoadAll, Built> for InkiDialog {}

impl BuildCandidate<LoadAll, Built> for InkiNode {
    fn build(&mut self, _p: &mut Pipeline<LoadAll, Built>, _br: &mut BuildRecord<Built>) -> Result<(), PutkiError> {
        Ok(())
    }
}

impl BuildCandidate<LoadAll, Built> for InkiDialog {
    fn build(&mut self, _p: &mut Pipeline<LoadAll, Built>, _br: &mut BuildRecord<Built>) -> Result<(), PutkiError> {
        Ok(())
    }
    fn scan_deps(&self, p: &mut Pipeline<LoadAll, Built>, br: &mut BuildRecord<Built>) {
        p.add_output_dependency(br, &self.node1);
        p.add_output_dependency(br, &self.node2);
    }
}

impl InkiObj<LoadAll, Built> for InkiNode {}
impl InkiObj<LoadAll, Built> for InkiDialog {}

/// Builds the objects at `paths` from the text `data` and writes them, with
/// everything they depend on, into a package.
fn build_package(data: &str, paths: &[&str]) -> Vec<u8> {
    let la = Arc::new(LoadAll::from_txty_data(data));
    let mut p: Pipeline<LoadAll, Built> = Pipeline::new(PipelineDesc::new(la, "."));
    for path in paths {
        p.build_as::<InkiDialog>(path);
    }
    while let Some(req) = p.take() {
        match &req.invoker {
            Built::Dialog(b) => b.build(&mut p, &req),
            Built::Node(b) => b.build(&mut p, &req),
        }
    }
    let mut recipe = PackageRecipe::new();
    for path in paths {
        recipe.add_object(&p, path, true).unwrap();
    }
    write_package(&p, &recipe).unwrap()
}

fn load(data: &str, paths: &[&str]) -> BinPackageManager {
    let bytes = build_package(data, paths);
    let manifest = PackageManifest::parse(&bytes).expect("parse manifest");
    let mut mgr = BinPackageManager::new();
    mgr.insert(Package::from_manifest(manifest, bytes));
    mgr
}

const DIALOG_DATA: &str = r#"
@Dialog dlg {
    Id: "DIALOG HEJ"
    Node1: @DlgSay {
        Id: "dlgsay"
        Text: "hej"
        Who: 0
    }
    Node2: node
}
@IDlgNode node {
    Id: "node"
}
"#;

#[test]
fn polymorphic_pointers_keep_their_type() {
    let mgr = load(DIALOG_DATA, &["dlg"]);
    let dlg = mgr.resolve::<Dialog>("dlg").expect("resolve dlg");
    assert_eq!(dlg.get().id, "DIALOG HEJ");

    match dlg.get().node1.get().unwrap().get() {
        IDlgNode::DlgSay(say) => {
            assert_eq!(say.text, "hej");
            assert_eq!(say.who, 0);
            assert_eq!(say.parent.id, "dlgsay");
        }
        IDlgNode::IDlgNode(_) => panic!("node1 should be DlgSay, got the base"),
    }

    match dlg.get().node2.get().unwrap().get() {
        IDlgNode::IDlgNode(_) => {}
        IDlgNode::DlgSay(_) => panic!("node2 should be the base IDlgNode, got DlgSay"),
    }

    // Asking for a slot as the wrong type is refused.
    let wrong = mgr.resolve::<IDlgNode>("dlg");
    assert!(matches!(wrong, Err(OutkiError::TypeMismatch { wanted: 2, found: 1 })));
}
