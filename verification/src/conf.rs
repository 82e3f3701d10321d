//! The project descriptor: source nodes, buffers, defines and jobs.
//!
//! Every table keeps its declaration order, so it is stored as a vector
//! of name/value pairs (`crate::maps`).

use vstd::prelude::*;
use vstd::string::StringExecFns;
use crate::value::{Value, ValueString};

verus! {

/// One source node of a project: inline code, a file, generated code
/// (container build or script), or a remote package resolved
/// recursively.
#[derive(Debug, Clone, PartialEq)]
pub enum Source {
    Code { code: ValueString },
    File { path: String },
    Dockerfile { dockerfile: String, args: ValueString },
    Script { script: String, args: ValueString },
    Package { git: String, args: ValueString },
}

/// The element type of a compute buffer; a fixed closed set of numeric
/// kinds, each of a fixed byte width.
#[derive(Debug, Clone, Copy, PartialEq, Eq, Structural)]
pub enum BufferType {
    Char,
    Uchar,
    Short,
    Ushort,
    Int,
    Uint,
    Long,
    Ulong,
    Float,
    Double,
    Float4,
}

impl BufferType {
    /// The byte width of one element.
    pub open spec fn spec_size_of(self) -> int {
        match self {
            BufferType::Char => 1,
            BufferType::Uchar => 1,
            BufferType::Short => 2,
            BufferType::Ushort => 2,
            BufferType::Int => 4,
            BufferType::Uint => 4,
            BufferType::Long => 8,
            BufferType::Ulong => 8,
            BufferType::Float => 4,
            BufferType::Double => 8,
            BufferType::Float4 => 16,
        }
    }

    /// The byte width of one element.
    pub fn size_of(&self) -> (r: usize)
        ensures
            r as int == self.spec_size_of(),
            1 <= r <= 16,
    {
        match self {
            BufferType::Char => 1,
            BufferType::Uchar => 1,
            BufferType::Short => 2,
            BufferType::Ushort => 2,
            BufferType::Int => 4,
            BufferType::Uint => 4,
            BufferType::Long => 8,
            BufferType::Ulong => 8,
            BufferType::Float => 4,
            BufferType::Double => 8,
            BufferType::Float4 => 16,
        }
    }
}

/// A declared buffer: element type and element count.
#[derive(Debug, Clone, PartialEq)]
pub struct Buffer {
    pub buffer_type: BufferType,
    pub count: Value<usize>,
}

/// One kernel argument: a named buffer or a scalar. The floating-point
/// kinds carry their computed text; binding the bits is the runtime's
/// side of the boundary.
#[derive(Debug, Clone, PartialEq)]
pub enum Arg {
    Buffer(ValueString),
    Char(Value<i8>),
    Uchar(Value<u8>),
    Short(Value<i16>),
    Ushort(Value<u16>),
    Int(Value<i32>),
    Uint(Value<u32>),
    Long(Value<i64>),
    Ulong(Value<u64>),
    Float(ValueString),
    Double(ValueString),
}

/// Where a saved buffer goes: raw bytes to a path, or a float4 image of
/// computed width and height.
#[derive(Debug, Clone, PartialEq)]
pub enum Storage {
    Raw { path: ValueString },
    Image { path: ValueString, x: Value<usize>, y: Value<usize> },
}

/// One unit of execution: a kernel run or a buffer save.
#[derive(Debug, Clone, PartialEq)]
pub enum Job {
    Run { run: ValueString, args: Vec<Arg>, global_work_size: Value<usize> },
    Save { save: ValueString, to: Storage },
}

/// A project descriptor. All four tables keep declaration order.
#[derive(Debug, Clone, PartialEq)]
pub struct Config {
    pub version: String,
    pub src: Vec<(String, Source)>,
    pub buffers: Vec<(String, Buffer)>,
    pub define: Vec<(String, ValueString)>,
    pub jobs: Vec<(String, Job)>,
}

/// The descriptor a fresh project starts from: one file node
/// `src/main.cl` and one job running `hello_world` over one work item.
pub fn default() -> (c: Config)
    ensures
        c.version@ == "0.1.0"@,
        c.define@.len() == 0,
        c.buffers@.len() == 0,
        c.src@.len() == 1,
        c.src@[0].0@ == "main.cl"@,
        c.src@[0].1 matches Source::File { path } && path@ == "src/main.cl"@,
        c.jobs@.len() == 1,
        c.jobs@[0].0@ == "main"@,
        c.jobs@[0].1 matches Job::Run { run, args, global_work_size } && run.0@
            == "hello_world"@ && args@.len() == 0 && global_work_size == Value::<usize>::Static(1),
{
    let mut src: Vec<(String, Source)> = Vec::new();
    src.push(
        (String::from_str("main.cl"), Source::File { path: String::from_str("src/main.cl") }),
    );
    let mut jobs: Vec<(String, Job)> = Vec::new();
    jobs.push(
        (
            String::from_str("main"),
            Job::Run {
                run: ValueString::from_str("hello_world"),
                args: Vec::new(),
                global_work_size: Value::Static(1),
            },
        ),
    );
    Config {
        version: String::from_str("0.1.0"),
        src,
        buffers: Vec::new(),
        define: Vec::new(),
        jobs,
    }
}

} // verus!
