use std::sync::Arc;

use putki::lexed::LexedKv;
use putki::lexer::{get_int, get_object};
use putki::loadall::LoadAll;
use putki::pipeline::{
    write_package, BuildCandidate, BuildFields, BuildRecord, BuildResultObj, Builder, BuilderDesc, InkiObj,
    PackageRecipe, Pipeline, PipelineDesc, PtrBox,
};
use putki::ptr::{ptr_from_data, Ptr};
use putki::shared::{PutkiError, TypeDescriptor};
use putki::source::{FieldWriter, InkiResolver, ParseFromKV, WriteAsText};
use putki::writer::{BinSaver, BinWriter, PackageRefs};

#[derive(Debug, Clone, Default)]
struct TestValues {
    value1: i32,
    value2: i32,
}

#[derive(Debug, Clone, Default)]
struct Multi {
    contained: TestValues,
}

#[derive(Clone, Default)]
struct Pointer {
    contained: TestValues,
    next: Ptr<Pointer, LoadAll>,
}

/// What the pipeline queues and keeps: a pointer to an object of one of
/// the test types.
enum Built {
    Values(PtrBox<TestValues, LoadAll>),
    Multi(PtrBox<Multi, LoadAll>),
    Pointer(PtrBox<Pointer, LoadAll>),
}

impl From<PtrBox<TestValues, LoadAll>> for Built {
    fn from(b: PtrBox<TestValues, LoadAll>) -> Built {
        Built::Values(b)
    }
}

impl From<PtrBox<Multi, LoadAll>> for Built {
    fn from(b: PtrBox<Multi, LoadAll>) -> Built {
        Built::Multi(b)
    }
}

impl From<PtrBox<Pointer, LoadAll>> for Built {
    fn from(b: PtrBox<Pointer, LoadAll>) -> Built {
        Built::Pointer(b)
    }
}

impl BinSaver for Built {
    fn write(&self, data: &mut Vec<u8>, refs: &PackageRefs) -> Result<(), PutkiError> {
        match self {
            Built::Values(b) => b.write(data, refs),
            Built::Multi(b) => b.write(data, refs),
            Built::Pointer(b) => b.write(data, refs),
        }
    }
}

impl Built {
    fn write_object(&self, output: &mut String) -> Result<(), PutkiError> {
        match self {
            Built::Values(b) => b.write_object(output),
            Built::Multi(b) => b.write_object(output),
            Built::Pointer(b) => b.write_object(output),
        }
    }
}

type Pl = Pipeline<LoadAll, Built>;
type Br = BuildRecord<Built>;

impl TypeDescriptor for TestValues {
    const TAG: &'static str = "TestValues";
}

impl TypeDescriptor for Multi {
    const TAG: &'static str = "Multi";
}

impl TypeDescriptor for Pointer {
    const TAG: &'static str = "Pointer";
}

struct TestValueBuilder {}
struct PointerBuilder {}

impl Builder<TestValues, Built> for TestValueBuilder {
    fn desc(&self) -> BuilderDesc {
        BuilderDesc { description: "testit" }
    }
    fn build(&self, _br: &mut Br, input: &mut TestValues) -> Result<(), PutkiError> {
        input.value1 = input.value1 + 1000;
        input.value2 = input.value2 + 2000;
        Ok(())
    }
}

impl Builder<Pointer, Built> for PointerBuilder {
    fn desc(&self) -> BuilderDesc {
        BuilderDesc { description: "pointer" }
    }
    fn build(&self, br: &mut Br, input: &mut Pointer) -> Result<(), PutkiError> {
        let ptr = br.create_object(
            "n",
            Pointer { next: Ptr::null(), contained: TestValues { value1: 222, value2: 333 } },
        );
        if br.get_path().len() < 30 {
            input.next = ptr;
        }
        Ok(())
    }
}

// The builders of each type, run in place of a registry picked by type.
impl BuildFields<LoadAll, Built> for TestValues {}

impl BuildFields<LoadAll, Built> for Multi {
    fn build_fields(&mut self, pipeline: &mut Pl, br: &mut Br) -> Result<(), PutkiError> {
        let _ = self.contained.build(pipeline, br);
        Ok(())
    }
}

impl BuildFields<LoadAll, Built> for Pointer {
    fn build_fields(&mut self, pipeline: &mut Pl, br: &mut Br) -> Result<(), PutkiError> {
        let _ = self.contained.build(pipeline, br);
        Ok(())
    }
}

impl BuildCandidate<LoadAll, Built> for TestValues {
    fn build(&mut self, p: &mut Pl, br: &mut Br) -> Result<(), PutkiError> {
        TestValueBuilder {}.build(br, self)?;
        self.build_fields(p, br)
    }
}

impl BuildCandidate<LoadAll, Built> for Multi {
    fn build(&mut self, p: &mut Pl, br: &mut Br) -> Result<(), PutkiError> {
        self.build_fields(p, br)
    }
}

impl BuildCandidate<LoadAll, Built> for Pointer {
    fn build(&mut self, p: &mut Pl, br: &mut Br) -> Result<(), PutkiError> {
        PointerBuilder {}.build(br, self)?;
        self.build_fields(p, br)
    }
    fn scan_deps(&self, p: &mut Pl, br: &mut Br) {
        p.add_output_dependency(br, &self.next);
    }
}

impl ParseFromKV<LoadAll> for TestValues {
    fn parse(kv: &LexedKv, _pctx: &Arc<InkiResolver<LoadAll>>) -> Self {
        Self { value1: get_int(kv.get("Value1"), 0), value2: get_int(kv.get("Value2"), 0) }
    }
}

impl WriteAsText for TestValues {
    fn write_text(&self, output: &mut String) -> Result<(), PutkiError> {
        output.write_field("Value1", &self.value1, false)?;
        output.write_field("Value2", &self.value2, true)
    }
}

impl ParseFromKV<LoadAll> for Multi {
    fn parse(kv: &LexedKv, pctx: &Arc<InkiResolver<LoadAll>>) -> Self {
        Self { contained: get_object(kv.get("Contained")).map(|v| TestValues::parse(v.0, pctx)).unwrap_or_default() }
    }
}

impl WriteAsText for Multi {
    fn write_text(&self, output: &mut String) -> Result<(), PutkiError> {
        output.write_field("Contained", &self.contained, false)
    }
}

impl ParseFromKV<LoadAll> for Pointer {
    fn parse(kv: &LexedKv, pctx: &Arc<InkiResolver<LoadAll>>) -> Self {
        Self {
            contained: get_object(kv.get("Contained")).map(|v| TestValues::parse(v.0, pctx)).unwrap_or_default(),
            next: kv.get("Next").map(|v| ptr_from_data(pctx, v)).unwrap_or_default(),
        }
    }
}

impl WriteAsText for Pointer {
    fn write_text(&self, output: &mut String) -> Result<(), PutkiError> {
        output.write_field("Contained", &self.contained, false)?;
        output.write_field("Next", &self.next, true)
    }
}

impl BinSaver for TestValues {
    fn write(&self, data: &mut Vec<u8>, _refs: &PackageRefs) -> Result<(), PutkiError> {
        self.value1.write(data);
        self.value2.write(data);
        Ok(())
    }
}

impl BinSaver for Multi {
    fn write(&self, data: &mut Vec<u8>, refs: &PackageRefs) -> Result<(), PutkiError> {
        self.contained.write(data, refs)
    }
}

impl BinSaver for Pointer {
    fn write(&self, data: &mut Vec<u8>, refs: &PackageRefs) -> Result<(), PutkiError> {
        self.contained.write(data, refs)?;
        self.next.write(data, refs)
    }
}

impl InkiObj<LoadAll, Built> for TestValues {}
impl InkiObj<LoadAll, Built> for Multi {}
impl InkiObj<LoadAll, Built> for Pointer {}

fn text_of(p: &Pl, path: &str) -> String {
    let mut r = String::new();
    p.record(path).unwrap().built_object().unwrap().write_object(&mut r).unwrap();
    r
}

#[test]
fn pipeline_test_pipeline() {
    let la = Arc::new(LoadAll::from_txty_data(
        r#"
		@TestValues tv0 {
			Value1: 123,
			Value2: 456,
		}
		@Multi multi {
			Contained: {
				Value1: 321
				Value2: 654
			}
		}
		@Pointer ptr {
			Contained: {
				Value1: 1
				Value2: 2
			}
			Next: ptr2
		}
		@Pointer ptr2 {
			Contained: {
				Value1: 2
				Value2: 3
			}
		}
	"#,
    ));

    let mut pipeline: Pl = Pipeline::new(PipelineDesc::new(la, "."));
    pipeline.build_as::<Multi>("multi");
    pipeline.build_as::<Pointer>("ptr");

    let mut k = 0;
    while let Some(req) = pipeline.take() {
        match &req.invoker {
            Built::Values(b) => b.build(&mut pipeline, &req),
            Built::Multi(b) => b.build(&mut pipeline, &req),
            Built::Pointer(b) => b.build(&mut pipeline, &req),
        }
        k = k + 1;
        if k > 100 {
            panic!("Pipeline never finished!")
        }
    }

    for rec in pipeline.peek_build_records() {
        let mut r = String::new();
        if let Some(bo) = rec.built_object() {
            bo.write_object(&mut r).unwrap();
        } else {
            panic!("Failed somehow with {}", rec.get_path());
        }
    }

    // The built multi has its contained values built.
    assert_eq!(text_of(&pipeline, "multi"), "Contained:Value1:1321,Value2:2654");
    // The pointer builder replaced the authored pointer with a created
    // object, which was then built in turn, and so on while the path stays
    // short: "ptr", "ptr!n", ..., fourteen links in all after "ptr".
    let mut path = String::from("ptr");
    let mut links = 0;
    while pipeline.record(&path).is_some() {
        let rec = pipeline.record(&path).unwrap();
        assert!(rec.is_ok());
        path.push_str("!n");
        links = links + 1;
    }
    assert_eq!(links, 15);
    assert!(pipeline.record("ptr2").is_none());
    assert_eq!(pipeline.peek_build_records().len(), 16);
    assert!(text_of(&pipeline, "ptr").starts_with("Contained:Value1:1001,Value2:2002,Next:\"ptr!n\""));
    assert!(text_of(&pipeline, "ptr!n").starts_with("Contained:Value1:1222,Value2:2333"));

    let mut rcp = PackageRecipe::new();
    rcp.add_object(&pipeline, "ptr", true).unwrap();
    let bytes = write_package(&pipeline, &rcp).unwrap();
    assert!(bytes.len() > 0);
}
