//! The execution layer's buffer table and argument marshalling.
//!
//! A buffer is an untyped byte sequence tagged with its declared
//! element type and element count; the byte length is fixed at
//! creation. Kernel arguments are marshalled into a `KernelCall` plan:
//! scalars by computed value, buffer references by table position. The
//! device itself (program compilation, enqueueing, read-back transport)
//! lives outside; the table here is the host-side model those results
//! flow through.

use vstd::prelude::*;
use crate::conf::{Arg, BufferType};
use crate::env::Environment;
use crate::error::ClmanError;
use crate::maps::{assoc, key_pairs};
use crate::value::{Computable, spec_compute_num, spec_compute_string};
use vstd::string::StringExecFns;

verus! {

/// A typed buffer: bytes tagged with element type and count.
pub struct TypedBuffer {
    pub buffer_type: BufferType,
    pub count: usize,
    pub data: Vec<u8>,
}

impl TypedBuffer {
    /// The byte length equals element width times element count.
    pub open spec fn wf(self) -> bool {
        self.data@.len() == self.buffer_type.spec_size_of() * self.count
    }

    /// A zero-filled buffer of `count` elements of `buffer_type`;
    /// fails exactly when the byte length does not fit the machine.
    pub fn new(buffer_type: BufferType, count: usize) -> (r: Result<TypedBuffer, ClmanError>)
        ensures
            match r {
                Ok(b) => b.wf() && b.buffer_type == buffer_type && b.count == count
                    && buffer_type.spec_size_of() * count <= usize::MAX as int && b.data@
                    =~= Seq::new((buffer_type.spec_size_of() * count) as nat, |i: int| 0u8),
                Err(e) => buffer_type.spec_size_of() * count > usize::MAX as int && e is Buffer,
            },
    {
        let width = buffer_type.size_of();
        let total = match width.checked_mul(count) {
            Some(t) => t,
            None => {
                return Err(
                    ClmanError::Buffer {
                        message: String::from_str("buffer byte length does not fit the machine"),
                    },
                );
            },
        };
        let mut data: Vec<u8> = Vec::new();
        let mut i: usize = 0;
        while i < total
            invariant
                i <= total,
                data@.len() == i,
                forall|j: int| 0 <= j < i ==> data@[j] == 0u8,
            decreases total - i,
        {
            data.push(0u8);
            i = i + 1;
        }
        Ok(TypedBuffer { buffer_type, count, data })
    }
}

/// The execution layer: the composed source and the name-to-buffer
/// table. A same-named creation replaces the previous buffer.
pub struct GPU {
    pub source: String,
    pub buffers: Vec<(String, TypedBuffer)>,
}

/// One marshalled scalar argument. Floating-point kinds carry their
/// computed decimal text; turning text into bits is the runtime's side
/// of the boundary.
pub enum ScalarArg {
    I8(i8),
    U8(u8),
    I16(i16),
    U16(u16),
    I32(i32),
    U32(u32),
    I64(i64),
    U64(u64),
    FloatText(String),
    DoubleText(String),
}

/// One bound kernel argument: a scalar by value, or a buffer by its
/// position in the table.
pub enum BoundArg {
    Scalar(ScalarArg),
    BufferIndex(usize),
}

/// A fully marshalled kernel invocation, ready for dispatch.
pub struct KernelCall {
    pub name: String,
    pub global_work_size: usize,
    pub args: Vec<BoundArg>,
}

/// Whether one argument marshals: its value computes, and a buffer
/// reference names a registered buffer.
pub open spec fn arg_ok(a: Arg, env: Environment, table: Seq<(Seq<char>, TypedBuffer)>) -> bool {
    match a {
        Arg::Buffer(vs) => match spec_compute_string(vs.0@, env) {
            Some(nm) => assoc(table, nm) is Some,
            None => false,
        },
        Arg::Char(v) => spec_compute_num(v.num_model(), env, i8::MIN as int, i8::MAX as int, true)
            is Some,
        Arg::Uchar(v) => spec_compute_num(v.num_model(), env, 0, u8::MAX as int, false) is Some,
        Arg::Short(v) => spec_compute_num(
            v.num_model(),
            env,
            i16::MIN as int,
            i16::MAX as int,
            true,
        ) is Some,
        Arg::Ushort(v) => spec_compute_num(v.num_model(), env, 0, u16::MAX as int, false) is Some,
        Arg::Int(v) => spec_compute_num(v.num_model(), env, i32::MIN as int, i32::MAX as int, true)
            is Some,
        Arg::Uint(v) => spec_compute_num(v.num_model(), env, 0, u32::MAX as int, false) is Some,
        Arg::Long(v) => spec_compute_num(v.num_model(), env, i64::MIN as int, i64::MAX as int, true)
            is Some,
        Arg::Ulong(v) => spec_compute_num(v.num_model(), env, 0, u64::MAX as int, false) is Some,
        Arg::Float(vs) => spec_compute_string(vs.0@, env) is Some,
        Arg::Double(vs) => spec_compute_string(vs.0@, env) is Some,
    }
}

/// Whether an argument fails because it names an unregistered buffer
/// (rather than because a value fails to compute).
pub open spec fn arg_buffer_missing(
    a: Arg,
    env: Environment,
    table: Seq<(Seq<char>, TypedBuffer)>,
) -> bool {
    match a {
        Arg::Buffer(vs) => match spec_compute_string(vs.0@, env) {
            Some(nm) => assoc(table, nm) is None,
            None => false,
        },
        _ => false,
    }
}

/// How a bound argument relates to the declared argument it came from.
pub open spec fn arg_matches(
    a: Arg,
    b: BoundArg,
    env: Environment,
    table: Seq<(Seq<char>, TypedBuffer)>,
) -> bool {
    match a {
        Arg::Buffer(vs) => b matches BoundArg::BufferIndex(ix) && (spec_compute_string(vs.0@, env)
            matches Some(nm) && ix < table.len() && table[ix as int].0 == nm && (forall|j: int|
            0 <= j < ix ==> (#[trigger] table[j]).0 != nm)),
        Arg::Char(v) => b matches BoundArg::Scalar(ScalarArg::I8(x)) && spec_compute_num(
            v.num_model(),
            env,
            i8::MIN as int,
            i8::MAX as int,
            true,
        ) == Some(x as int),
        Arg::Uchar(v) => b matches BoundArg::Scalar(ScalarArg::U8(x)) && spec_compute_num(
            v.num_model(),
            env,
            0,
            u8::MAX as int,
            false,
        ) == Some(x as int),
        Arg::Short(v) => b matches BoundArg::Scalar(ScalarArg::I16(x)) && spec_compute_num(
            v.num_model(),
            env,
            i16::MIN as int,
            i16::MAX as int,
            true,
        ) == Some(x as int),
        Arg::Ushort(v) => b matches BoundArg::Scalar(ScalarArg::U16(x)) && spec_compute_num(
            v.num_model(),
            env,
            0,
            u16::MAX as int,
            false,
        ) == Some(x as int),
        Arg::Int(v) => b matches BoundArg::Scalar(ScalarArg::I32(x)) && spec_compute_num(
            v.num_model(),
            env,
            i32::MIN as int,
            i32::MAX as int,
            true,
        ) == Some(x as int),
        Arg::Uint(v) => b matches BoundArg::Scalar(ScalarArg::U32(x)) && spec_compute_num(
            v.num_model(),
            env,
            0,
            u32::MAX as int,
            false,
        ) == Some(x as int),
        Arg::Long(v) => b matches BoundArg::Scalar(ScalarArg::I64(x)) && spec_compute_num(
            v.num_model(),
            env,
            i64::MIN as int,
            i64::MAX as int,
            true,
        ) == Some(x as int),
        Arg::Ulong(v) => b matches BoundArg::Scalar(ScalarArg::U64(x)) && spec_compute_num(
            v.num_model(),
            env,
            0,
            u64::MAX as int,
            false,
        ) == Some(x as int),
        Arg::Float(vs) => b matches BoundArg::Scalar(ScalarArg::FloatText(t))
            && spec_compute_string(vs.0@, env) == Some(t@),
        Arg::Double(vs) => b matches BoundArg::Scalar(ScalarArg::DoubleText(t))
            && spec_compute_string(vs.0@, env) == Some(t@),
    }
}

impl GPU {
    /// Every buffer in the table is well formed.
    pub open spec fn wf(self) -> bool {
        forall|i: int| 0 <= i < self.buffers@.len() ==> (#[trigger] self.buffers@[i]).1.wf()
    }

    /// The table as viewed pairs.
    pub open spec fn table(self) -> Seq<(Seq<char>, TypedBuffer)> {
        key_pairs(self.buffers@)
    }

    /// The registered buffer under a name, if any.
    pub open spec fn buffer_of(self, name: Seq<char>) -> Option<TypedBuffer> {
        assoc(self.table(), name)
    }

    /// An execution layer holding a composed source and no buffers.
    pub fn new(source: String) -> (g: GPU)
        ensures
            g.source == source,
            g.buffers@.len() == 0,
            g.wf(),
            forall|n: Seq<char>| #[trigger] g.buffer_of(n) is None,
    {
        let g = GPU { source, buffers: Vec::new() };
        proof {
            assert forall|n: Seq<char>| #[trigger] g.buffer_of(n) is None by {
                assert(g.table() =~= Seq::<(Seq<char>, TypedBuffer)>::empty());
            }
        }
        g
    }

    /// Registers a fresh zero-filled buffer under `name`, replacing any
    /// prior buffer with the same name; fails exactly when the byte
    /// length does not fit the machine.
    pub fn create_buffer(&mut self, name: String, buffer_type: BufferType, count: usize) -> (r:
        Result<(), ClmanError>)
        requires
            old(self).wf(),
        ensures
            final(self).wf(),
            final(self).source == old(self).source,
            match r {
                Ok(()) => buffer_type.spec_size_of() * count <= usize::MAX as int
                    && (final(self).buffer_of(name@) matches Some(b) && b.buffer_type == buffer_type && b.count
                    == count && b.data@ =~= Seq::new(
                    (buffer_type.spec_size_of() * count) as nat,
                    |i: int| 0u8,
                )) && (forall|n: Seq<char>|
                    n != name@ ==> #[trigger] final(self).buffer_of(n) == old(self).buffer_of(n)),
                Err(e) => *final(self) == *old(self) && buffer_type.spec_size_of() * count
                    > usize::MAX as int && e is Buffer,
            },
    {
        let buf = match TypedBuffer::new(buffer_type, count) {
            Ok(b) => b,
            Err(e) => {
                return Err(e);
            },
        };
        let ghost pre = self.table();
        let ghost newbuf = buf;
        crate::maps::map_set(&mut self.buffers, name, buf);
        proof {
            assert forall|n: Seq<char>| #[trigger] self.buffer_of(n) == if n == name@ {
                Some(newbuf)
            } else {
                assoc(pre, n)
            } by {
                crate::maps::lemma_assoc_after_set(pre, name@, newbuf, n);
            }
            assert forall|i: int| 0 <= i < self.buffers@.len() implies (#[trigger] self.buffers@[i]).1.wf() by {
                assert(self.table()[i] == (self.buffers@[i].0@, self.buffers@[i].1));
                lemma_set_entries(pre, name@, newbuf, i);
                if self.table()[i] != (name@, newbuf) {
                    let i0 = choose|i0: int|
                        0 <= i0 < pre.len() && #[trigger] pre[i0] == self.table()[i];
                    assert(pre[i0] == (old(self).buffers@[i0].0@, old(self).buffers@[i0].1));
                }
            }
        }
        Ok(())
    }

    /// Replaces the bytes of the buffer under `name`; the length must
    /// match the buffer's fixed byte length. This is how device
    /// results enter the table.
    pub fn write_buffer(&mut self, name: &String, data: Vec<u8>) -> (r: Result<(), ClmanError>)
        requires
            old(self).wf(),
        ensures
            final(self).wf(),
            final(self).source == old(self).source,
            match r {
                Ok(()) => (old(self).buffer_of(name@) matches Some(b) && data@.len()
                    == b.data@.len() && (final(self).buffer_of(name@) matches Some(b2)
                    && b2.buffer_type == b.buffer_type && b2.count == b.count && b2.data@ == data@))
                    && (forall|n: Seq<char>|
                    n != name@ ==> #[trigger] final(self).buffer_of(n) == old(self).buffer_of(n)),
                Err(e) => *final(self) == *old(self) && e is Buffer && match old(self).buffer_of(
                    name@,
                ) {
                    Some(b) => data@.len() != b.data@.len(),
                    None => true,
                },
            },
    {
        let mut i: usize = 0;
        while i < self.buffers.len()
            invariant
                i <= self.buffers@.len(),
                old(self).wf(),
                *self == *old(self),
                forall|j: int| 0 <= j < i ==> (#[trigger] self.buffers@[j]).0@ != name@,
            decreases self.buffers@.len() - i,
        {
            if self.buffers[i].0.eq(name) {
                proof {
                    assert forall|j: int| 0 <= j < i implies (#[trigger] self.table()[j]).0
                        != name@ by {
                        assert(self.table()[j] == (self.buffers@[j].0@, self.buffers@[j].1));
                    }
                    assert(self.table()[i as int] == (
                        self.buffers@[i as int].0@,
                        self.buffers@[i as int].1,
                    ));
                    lemma_assoc_first(self.table(), name@, i as int);
                }
                if data.len() != self.buffers[i].1.data.len() {
                    return Err(
                        ClmanError::Buffer {
                            message: String::from_str(
                                "buffer byte length is fixed for its lifetime",
                            ),
                        },
                    );
                }
                let nm = self.buffers[i].0.clone();
                let bt = self.buffers[i].1.buffer_type;
                let ct = self.buffers[i].1.count;
                let ghost pre = self.table();
                let nb = TypedBuffer { buffer_type: bt, count: ct, data };
                self.buffers.set(i, (nm, nb));
                proof {
                    assert forall|n: Seq<char>| #[trigger] self.buffer_of(n) == if n == name@ {
                        Some(nb)
                    } else {
                        assoc(pre, n)
                    } by {
                        assert(self.table() =~= spec_map_set_entry(pre, i as int, name@, nb));
                        lemma_assoc_update(pre, i as int, name@, nb, n);
                    }
                    assert forall|k: int| 0 <= k < self.buffers@.len() implies (#[trigger] self
                        .buffers@[k]).1.wf() by {
                        if k != i {
                            assert(self.buffers@[k] == old(self).buffers@[k]);
                        }
                    }
                }
                return Ok(());
            }
            i = i + 1;
        }
        proof {
            assert forall|j: int|
                0 <= j < self.table().len() implies (#[trigger] self.table()[j]).0 != name@ by {
                assert(self.table()[j] == (self.buffers@[j].0@, self.buffers@[j].1));
            }
            lemma_table_no_match(self.table(), name@);
        }
        Err(
            ClmanError::Buffer {
                message: String::from_str("no buffer is registered under this name"),
            },
        )
    }

    /// The bytes of the buffer under `name`; fatal when the name is
    /// not registered.
    pub fn read_buffer(&self, name: &String) -> (r: Result<Vec<u8>, ClmanError>)
        ensures
            match r {
                Ok(v) => self.buffer_of(name@) matches Some(b) && v@ == b.data@,
                Err(e) => self.buffer_of(name@) is None && e is Buffer,
            },
    {
        let mut i: usize = 0;
        while i < self.buffers.len()
            invariant
                i <= self.buffers@.len(),
                forall|j: int| 0 <= j < i ==> (#[trigger] self.buffers@[j]).0@ != name@,
            decreases self.buffers@.len() - i,
        {
            if self.buffers[i].0.eq(name) {
                proof {
                    assert forall|j: int| 0 <= j < i implies (#[trigger] self.table()[j]).0
                        != name@ by {
                        assert(self.table()[j] == (self.buffers@[j].0@, self.buffers@[j].1));
                    }
                    assert(self.table()[i as int] == (
                        self.buffers@[i as int].0@,
                        self.buffers@[i as int].1,
                    ));
                    lemma_assoc_first(self.table(), name@, i as int);
                }
                return Ok(copy_bytes(&self.buffers[i].1.data));
            }
            i = i + 1;
        }
        proof {
            assert forall|j: int|
                0 <= j < self.table().len() implies (#[trigger] self.table()[j]).0 != name@ by {
                assert(self.table()[j] == (self.buffers@[j].0@, self.buffers@[j].1));
            }
            lemma_table_no_match(self.table(), name@);
        }
        Err(
            ClmanError::Buffer {
                message: String::from_str("no buffer is registered under this name"),
            },
        )
    }
}

impl GPU {
    /// The position of the first buffer registered under `nm`.
    pub fn find_buffer(&self, nm: &String) -> (r: Option<usize>)
        ensures
            match r {
                Some(ix) => ix < self.table().len() && self.table()[ix as int].0 == nm@ && (forall|
                    j: int,
                |
                    0 <= j < ix ==> (#[trigger] self.table()[j]).0 != nm@),
                None => self.buffer_of(nm@) is None,
            },
    {
        let mut i: usize = 0;
        while i < self.buffers.len()
            invariant
                i <= self.buffers@.len(),
                forall|j: int| 0 <= j < i ==> (#[trigger] self.buffers@[j]).0@ != nm@,
            decreases self.buffers@.len() - i,
        {
            if self.buffers[i].0.eq(nm) {
                proof {
                    assert forall|j: int| 0 <= j < i implies (#[trigger] self.table()[j]).0
                        != nm@ by {
                        assert(self.table()[j] == (self.buffers@[j].0@, self.buffers@[j].1));
                    }
                    assert(self.table()[i as int] == (
                        self.buffers@[i as int].0@,
                        self.buffers@[i as int].1,
                    ));
                }
                return Some(i);
            }
            i = i + 1;
        }
        proof {
            assert forall|j: int|
                0 <= j < self.table().len() implies (#[trigger] self.table()[j]).0 != nm@ by {
                assert(self.table()[j] == (self.buffers@[j].0@, self.buffers@[j].1));
            }
            lemma_table_no_match(self.table(), nm@);
        }
        None
    }

    /// Marshals one argument: a scalar by computed value, a buffer
    /// reference by table position.
    pub fn marshal_arg(&self, env: &Environment, a: &Arg) -> (r: Result<BoundArg, ClmanError>)
        ensures
            match r {
                Ok(b) => arg_ok(*a, *env, self.table()) && arg_matches(*a, b, *env, self.table()),
                Err(e) => !arg_ok(*a, *env, self.table()) && if arg_buffer_missing(
                    *a,
                    *env,
                    self.table(),
                ) {
                    e is Buffer
                } else {
                    e is ValueCompute
                },
            },
    {
        match a {
            Arg::Buffer(vs) => {
                let nm = match vs.compute(env) {
                    Ok(t) => t,
                    Err(e) => {
                        return Err(e);
                    },
                };
                match self.find_buffer(&nm) {
                    Some(ix) => {
                        proof {
                            lemma_assoc_first(self.table(), nm@, ix as int);
                        }
                        Ok(BoundArg::BufferIndex(ix))
                    },
                    None => Err(
                        ClmanError::Buffer {
                            message: String::from_str("no buffer is registered under this name"),
                        },
                    ),
                }
            },
            Arg::Char(v) => match v.compute(env) {
                Ok(x) => Ok(BoundArg::Scalar(ScalarArg::I8(x))),
                Err(e) => Err(e),
            },
            Arg::Uchar(v) => match v.compute(env) {
                Ok(x) => Ok(BoundArg::Scalar(ScalarArg::U8(x))),
                Err(e) => Err(e),
            },
            Arg::Short(v) => match v.compute(env) {
                Ok(x) => Ok(BoundArg::Scalar(ScalarArg::I16(x))),
                Err(e) => Err(e),
            },
            Arg::Ushort(v) => match v.compute(env) {
                Ok(x) => Ok(BoundArg::Scalar(ScalarArg::U16(x))),
                Err(e) => Err(e),
            },
            Arg::Int(v) => match v.compute(env) {
                Ok(x) => Ok(BoundArg::Scalar(ScalarArg::I32(x))),
                Err(e) => Err(e),
            },
            Arg::Uint(v) => match v.compute(env) {
                Ok(x) => Ok(BoundArg::Scalar(ScalarArg::U32(x))),
                Err(e) => Err(e),
            },
            Arg::Long(v) => match v.compute(env) {
                Ok(x) => Ok(BoundArg::Scalar(ScalarArg::I64(x))),
                Err(e) => Err(e),
            },
            Arg::Ulong(v) => match v.compute(env) {
                Ok(x) => Ok(BoundArg::Scalar(ScalarArg::U64(x))),
                Err(e) => Err(e),
            },
            Arg::Float(vs) => match vs.compute(env) {
                Ok(t) => Ok(BoundArg::Scalar(ScalarArg::FloatText(t))),
                Err(e) => Err(e),
            },
            Arg::Double(vs) => match vs.compute(env) {
                Ok(t) => Ok(BoundArg::Scalar(ScalarArg::DoubleText(t))),
                Err(e) => Err(e),
            },
        }
    }

    /// Marshals a kernel invocation: each argument in order, scalars by
    /// computed value, buffer references by table position. An
    /// unregistered buffer name is a fatal error, never skipped; a
    /// value that fails to compute is fatal too.
    pub fn run_kernel(
        &self,
        env: &Environment,
        name: String,
        args: &Vec<Arg>,
        global_work_size: usize,
    ) -> (r: Result<KernelCall, ClmanError>)
        ensures
            match r {
                Ok(call) => call.name == name && call.global_work_size == global_work_size
                    && call.args@.len() == args@.len() && (forall|i: int|
                    0 <= i < args@.len() ==> #[trigger] arg_ok(args@[i], *env, self.table())) && (
                forall|i: int|
                    0 <= i < args@.len() ==> arg_matches(
                        args@[i],
                        #[trigger] call.args@[i],
                        *env,
                        self.table(),
                    )),
                Err(e) => exists|i: int|
                    0 <= i < args@.len() && !(#[trigger] arg_ok(args@[i], *env, self.table())) && (
                    forall|j: int| 0 <= j < i ==> arg_ok(#[trigger] args@[j], *env, self.table()))
                        && if arg_buffer_missing(args@[i], *env, self.table()) {
                        e is Buffer
                    } else {
                        e is ValueCompute
                    },
            },
    {
        let mut bound: Vec<BoundArg> = Vec::new();
        let mut i: usize = 0;
        while i < args.len()
            invariant
                i <= args@.len(),
                bound@.len() == i,
                forall|j: int| 0 <= j < i ==> arg_ok(#[trigger] args@[j], *env, self.table()),
                forall|j: int|
                    0 <= j < i ==> arg_matches(args@[j], #[trigger] bound@[j], *env, self.table()),
            decreases args@.len() - i,
        {
            match self.marshal_arg(env, &args[i]) {
                Ok(b) => {
                    bound.push(b);
                },
                Err(e) => {
                    proof {
                        let wi = i as int;
                        assert(0 <= wi < args@.len() && !arg_ok(args@[wi], *env, self.table()) && (
                        forall|j: int|
                            0 <= j < wi ==> arg_ok(#[trigger] args@[j], *env, self.table()))
                            && if arg_buffer_missing(args@[wi], *env, self.table()) {
                            e is Buffer
                        } else {
                            e is ValueCompute
                        });
                    }
                    return Err(e);
                },
            }
            i = i + 1;
        }
        Ok(KernelCall { name, global_work_size, args: bound })
    }
}

/// The little-endian 16-bit word starting at byte `2 * i`.
pub open spec fn word16_at(b: Seq<u8>, i: int) -> int {
    b[2 * i] + 256 * b[2 * i + 1]
}

/// The little-endian 32-bit word starting at byte `4 * i`.
pub open spec fn word32_at(b: Seq<u8>, i: int) -> int {
    b[4 * i] + 256 * b[4 * i + 1] + 65536 * b[4 * i + 2] + 16777216 * b[4 * i + 3]
}

/// The little-endian 64-bit word starting at byte `8 * i`.
pub open spec fn word64_at(b: Seq<u8>, i: int) -> int {
    b[8 * i] + 256 * b[8 * i + 1] + 65536 * b[8 * i + 2] + 16777216 * b[8 * i + 3] + 4294967296 * b[
        8 * i + 4
    ] + 1099511627776 * b[8 * i + 5] + 281474976710656 * b[8 * i + 6] + 72057594037927936 * b[8 * i
        + 7]
}

/// Reinterprets buffer bytes as little-endian 16-bit words; the byte
/// length must be a multiple of the element width.
pub fn words16_of_bytes(bytes: &Vec<u8>) -> (r: Vec<u16>)
    requires
        bytes@.len() % 2 == 0,
    ensures
        r@.len() == bytes@.len() / 2,
        forall|i: int| 0 <= i < r@.len() ==> #[trigger] r@[i] as int == word16_at(bytes@, i),
{
    let blen = bytes.len();
    let n = blen / 2;
    let mut r: Vec<u16> = Vec::new();
    let mut w: usize = 0;
    while w < n
        invariant
            w <= n,
            blen == bytes@.len(),
            n == bytes@.len() / 2,
            bytes@.len() % 2 == 0,
            r@.len() == w,
            forall|i: int| 0 <= i < w ==> #[trigger] r@[i] as int == word16_at(bytes@, i),
        decreases n - w,
    {
        let b0 = bytes[2 * w] as u16;
        let b1 = bytes[2 * w + 1] as u16;
        r.push(b0 + 256 * b1);
        w = w + 1;
    }
    r
}

/// Reinterprets buffer bytes as little-endian 32-bit words; the byte
/// length must be a multiple of the element width.
pub fn words32_of_bytes(bytes: &Vec<u8>) -> (r: Vec<u32>)
    requires
        bytes@.len() % 4 == 0,
    ensures
        r@.len() == bytes@.len() / 4,
        forall|i: int| 0 <= i < r@.len() ==> #[trigger] r@[i] as int == word32_at(bytes@, i),
{
    let blen = bytes.len();
    let n = blen / 4;
    let mut r: Vec<u32> = Vec::new();
    let mut w: usize = 0;
    while w < n
        invariant
            w <= n,
            blen == bytes@.len(),
            n == bytes@.len() / 4,
            bytes@.len() % 4 == 0,
            r@.len() == w,
            forall|i: int| 0 <= i < w ==> #[trigger] r@[i] as int == word32_at(bytes@, i),
        decreases n - w,
    {
        let b0 = bytes[4 * w] as u32;
        let b1 = bytes[4 * w + 1] as u32;
        let b2 = bytes[4 * w + 2] as u32;
        let b3 = bytes[4 * w + 3] as u32;
        r.push(b0 + 256 * b1 + 65536 * b2 + 16777216 * b3);
        w = w + 1;
    }
    r
}

/// Reinterprets buffer bytes as little-endian 64-bit words; the byte
/// length must be a multiple of the element width.
pub fn words64_of_bytes(bytes: &Vec<u8>) -> (r: Vec<u64>)
    requires
        bytes@.len() % 8 == 0,
    ensures
        r@.len() == bytes@.len() / 8,
        forall|i: int| 0 <= i < r@.len() ==> #[trigger] r@[i] as int == word64_at(bytes@, i),
{
    let blen = bytes.len();
    let n = blen / 8;
    let mut r: Vec<u64> = Vec::new();
    let mut w: usize = 0;
    while w < n
        invariant
            w <= n,
            blen == bytes@.len(),
            n == bytes@.len() / 8,
            bytes@.len() % 8 == 0,
            r@.len() == w,
            forall|i: int| 0 <= i < w ==> #[trigger] r@[i] as int == word64_at(bytes@, i),
        decreases n - w,
    {
        let b0 = bytes[8 * w] as u64;
        let b1 = bytes[8 * w + 1] as u64;
        let b2 = bytes[8 * w + 2] as u64;
        let b3 = bytes[8 * w + 3] as u64;
        let b4 = bytes[8 * w + 4] as u64;
        let b5 = bytes[8 * w + 5] as u64;
        let b6 = bytes[8 * w + 6] as u64;
        let b7 = bytes[8 * w + 7] as u64;
        r.push(
            b0 + 256 * b1 + 65536 * b2 + 16777216 * b3 + 4294967296 * b4 + 1099511627776 * b5
                + 281474976710656 * b6 + 72057594037927936 * b7,
        );
        w = w + 1;
    }
    r
}

/// A copy of a byte vector.
pub fn copy_bytes(v: &Vec<u8>) -> (r: Vec<u8>)
    ensures
        r@ == v@,
{
    let mut r: Vec<u8> = Vec::new();
    let mut i: usize = 0;
    while i < v.len()
        invariant
            i <= v@.len(),
            r@ == v@.take(i as int),
        decreases v@.len() - i,
    {
        r.push(v[i]);
        i = i + 1;
        proof {
            assert(v@.take(i as int) =~= v@.take(i - 1).push(v@[i - 1]));
        }
    }
    proof {
        assert(v@.take(v@.len() as int) =~= v@);
    }
    r
}

/// The table after updating position `i` to a new buffer under the
/// same (first-occurrence) key.
pub open spec fn spec_map_set_entry(
    pairs: Seq<(Seq<char>, TypedBuffer)>,
    i: int,
    k: Seq<char>,
    v: TypedBuffer,
) -> Seq<(Seq<char>, TypedBuffer)> {
    pairs.update(i, (k, v))
}

/// Updating the first occurrence of a key changes that key's lookup
/// and no other.
proof fn lemma_assoc_update(
    pairs: Seq<(Seq<char>, TypedBuffer)>,
    i: int,
    k: Seq<char>,
    v: TypedBuffer,
    q: Seq<char>,
)
    requires
        0 <= i < pairs.len(),
        pairs[i].0 == k,
        forall|j: int| 0 <= j < i ==> (#[trigger] pairs[j]).0 != k,
    ensures
        assoc(pairs.update(i, (k, v)), q) == if q == k {
            Some(v)
        } else {
            assoc(pairs, q)
        },
    decreases i,
{
    if i == 0 {
        if q != k {
            assert(pairs.update(0, (k, v)).drop_first() =~= pairs.drop_first());
        }
    } else {
        assert(forall|j: int|
            0 <= j < i - 1 ==> (#[trigger] pairs.drop_first()[j]).0 == pairs[j + 1].0);
        lemma_assoc_update(pairs.drop_first(), i - 1, k, v, q);
        assert(pairs.update(i, (k, v))[0] == pairs[0]);
        assert(pairs.update(i, (k, v)).drop_first() =~= pairs.drop_first().update(i - 1, (k, v)));
    }
}

/// When no entry has the key, buffer lookup returns nothing.
proof fn lemma_table_no_match(pairs: Seq<(Seq<char>, TypedBuffer)>, k: Seq<char>)
    requires
        forall|j: int| 0 <= j < pairs.len() ==> (#[trigger] pairs[j]).0 != k,
    ensures
        assoc(pairs, k) is None,
    decreases pairs.len(),
{
    if pairs.len() > 0 {
        assert(forall|j: int|
            0 <= j < pairs.drop_first().len() ==> (#[trigger] pairs.drop_first()[j]).0 == pairs[j
                + 1].0);
        lemma_table_no_match(pairs.drop_first(), k);
    }
}

/// First-occurrence lookup, specialized to buffer tables.
proof fn lemma_assoc_first(pairs: Seq<(Seq<char>, TypedBuffer)>, k: Seq<char>, i: int)
    requires
        0 <= i < pairs.len(),
        pairs[i].0 == k,
        forall|j: int| 0 <= j < i ==> (#[trigger] pairs[j]).0 != k,
    ensures
        assoc(pairs, k) == Some(pairs[i].1),
    decreases i,
{
    if i > 0 {
        assert(forall|j: int|
            0 <= j < i - 1 ==> (#[trigger] pairs.drop_first()[j]).0 == pairs[j + 1].0);
        lemma_assoc_first(pairs.drop_first(), k, i - 1);
    }
}

/// Every entry of a map after a set is the new binding or one of the
/// original entries.
proof fn lemma_set_entries(
    pairs: Seq<(Seq<char>, TypedBuffer)>,
    k: Seq<char>,
    v: TypedBuffer,
    j: int,
)
    requires
        0 <= j < crate::maps::spec_map_set(pairs, k, v).len(),
    ensures
        crate::maps::spec_map_set(pairs, k, v)[j] == (k, v) || exists|i: int|
            0 <= i < pairs.len() && #[trigger] pairs[i] == crate::maps::spec_map_set(pairs, k, v)[j],
    decreases pairs.len(),
{
    let res = crate::maps::spec_map_set(pairs, k, v);
    if pairs.len() == 0 {
    } else if pairs[0].0 == k {
        if res[j] != (k, v) {
            assert(pairs[j] == res[j]);
        }
    } else {
        let rest = crate::maps::spec_map_set(pairs.drop_first(), k, v);
        if j == 0 {
            assert(pairs[0] == res[0]);
        } else {
            assert(res[j] == rest[j - 1]);
            lemma_set_entries(pairs.drop_first(), k, v, j - 1);
            if rest[j - 1] != (k, v) {
                let i0 = choose|i: int|
                    0 <= i < pairs.drop_first().len() && #[trigger] pairs.drop_first()[i] == rest[j
                        - 1];
                assert(pairs[i0 + 1] == rest[j - 1]);
            }
        }
    }
}

} // verus!
