//! The job orchestrator's verified steps: buffer allocation from the
//! descriptor and the planning of save jobs. The strictly linear drive
//! (allocate, then each job in declared order, aborting on the first
//! failure) performs I/O and device work outside; each step's decision
//! is taken here.

use vstd::prelude::*;
use vstd::string::StringExecFns;
use crate::conf::{Buffer, Storage};
use crate::env::Environment;
use crate::error::ClmanError;
use crate::gpu::{GPU, word32_at, words32_of_bytes};
use crate::value::{Computable, spec_compute_num, spec_compute_string, ValueString};

verus! {

/// What a declared buffer's count computes to.
pub open spec fn count_of(b: Buffer, env: Environment) -> Option<int> {
    spec_compute_num(b.count.num_model(), env, 0, usize::MAX as int, false)
}

/// Whether one declaration allocates: its count computes and the byte
/// length fits the machine.
pub open spec fn alloc_ok(b: Buffer, env: Environment) -> bool {
    match count_of(b, env) {
        Some(c) => b.buffer_type.spec_size_of() * c <= usize::MAX as int,
        None => false,
    }
}

/// Allocates every declared buffer in order, each under its name with
/// its computed count; a later same-named declaration replaces an
/// earlier one. The first declaration whose count does not compute, or
/// whose byte length does not fit, aborts the remaining list.
pub fn allocate_buffers(gpu: &mut GPU, buffers: &Vec<(String, Buffer)>, env: &Environment) -> (r:
    Result<(), ClmanError>)
    requires
        old(gpu).wf(),
    ensures
        final(gpu).wf(),
        final(gpu).source == old(gpu).source,
        match r {
            Ok(()) => (forall|i: int|
                0 <= i < buffers@.len() ==> alloc_ok((#[trigger] buffers@[i]).1, *env)) && (forall|
                i: int,
            |
                0 <= i < buffers@.len() && (forall|j: int|
                    i < j < buffers@.len() ==> (#[trigger] buffers@[j]).0@ != buffers@[i].0@)
                    ==> ((#[trigger] final(gpu).buffer_of(buffers@[i].0@)) matches Some(b)
                    && b.buffer_type == buffers@[i].1.buffer_type && count_of(buffers@[i].1, *env)
                    == Some(b.count as int))) && (forall|n: Seq<char>|
                (forall|i: int| 0 <= i < buffers@.len() ==> (#[trigger] buffers@[i]).0@ != n)
                    ==> #[trigger] final(gpu).buffer_of(n) == old(gpu).buffer_of(n)),
            Err(e) => exists|i: int|
                0 <= i < buffers@.len() && !alloc_ok((#[trigger] buffers@[i]).1, *env) && (forall|
                    j: int,
                |
                    0 <= j < i ==> alloc_ok((#[trigger] buffers@[j]).1, *env)) && if count_of(
                    buffers@[i].1,
                    *env,
                ) is None {
                    e is ValueCompute
                } else {
                    e is Buffer
                },
        },
{
    let mut i: usize = 0;
    while i < buffers.len()
        invariant
            i <= buffers@.len(),
            old(gpu).wf(),
            gpu.wf(),
            gpu.source == old(gpu).source,
            forall|k: int| 0 <= k < i ==> alloc_ok((#[trigger] buffers@[k]).1, *env),
            forall|k: int|
                0 <= k < i && (forall|j: int|
                    k < j < i ==> (#[trigger] buffers@[j]).0@ != buffers@[k].0@) ==> ((
                #[trigger] gpu.buffer_of(buffers@[k].0@)) matches Some(b) && b.buffer_type
                    == buffers@[k].1.buffer_type && count_of(buffers@[k].1, *env) == Some(
                    b.count as int,
                )),
            forall|n: Seq<char>|
                (forall|k: int| 0 <= k < i ==> (#[trigger] buffers@[k]).0@ != n)
                    ==> #[trigger] gpu.buffer_of(n) == old(gpu).buffer_of(n),
        decreases buffers@.len() - i,
    {
        let count = match buffers[i].1.count.compute(env) {
            Ok(c) => c,
            Err(e) => {
                proof {
                    let wi = i as int;
                    assert(0 <= wi < buffers@.len() && !alloc_ok(buffers@[wi].1, *env) && (forall|
                        j: int,
                    |
                        0 <= j < wi ==> alloc_ok((#[trigger] buffers@[j]).1, *env)) && count_of(
                        buffers@[wi].1,
                        *env,
                    ) is None);
                }
                return Err(e);
            },
        };
        let nm = buffers[i].0.clone();
        let ghost pre = *gpu;
        match gpu.create_buffer(nm, buffers[i].1.buffer_type, count) {
            Ok(()) => {},
            Err(e) => {
                proof {
                    let wi = i as int;
                    assert(0 <= wi < buffers@.len() && !alloc_ok(buffers@[wi].1, *env) && (forall|
                        j: int,
                    |
                        0 <= j < wi ==> alloc_ok((#[trigger] buffers@[j]).1, *env)) && count_of(
                        buffers@[wi].1,
                        *env,
                    ) is Some);
                }
                return Err(e);
            },
        }
        i = i + 1;
        proof {
            assert forall|k: int|
                0 <= k < i && (forall|j: int|
                    k < j < i ==> (#[trigger] buffers@[j]).0@ != buffers@[k].0@) implies ((
            #[trigger] gpu.buffer_of(buffers@[k].0@)) matches Some(b) && b.buffer_type
                == buffers@[k].1.buffer_type && count_of(buffers@[k].1, *env) == Some(
                b.count as int,
            )) by {
                if k < i - 1 {
                    assert(buffers@[i - 1].0@ != buffers@[k].0@);
                    assert(gpu.buffer_of(buffers@[k].0@) == pre.buffer_of(buffers@[k].0@));
                }
            }
        }
    }
    Ok(())
}

/// One pixel of a float4 buffer, as the bit patterns of its four
/// 32-bit channels, in R, G, B, A order.
pub struct Pixel {
    pub r: u32,
    pub g: u32,
    pub b: u32,
    pub a: u32,
}

/// What a save job does once the bytes are at hand: write them raw to
/// a path, or encode them as a width-by-height four-channel image.
pub enum SaveAction {
    RawFile { path: String, bytes: Vec<u8> },
    ImageFile { path: String, width: usize, height: usize, pixels: Vec<Pixel> },
}

/// Plans a save job: computes the buffer name and destination, reads
/// the buffer's bytes out of the table, and, for an image, groups them
/// into float4 pixels. An unregistered buffer name is a fatal error,
/// never skipped.
pub fn plan_save(gpu: &GPU, env: &Environment, save: &ValueString, to: &Storage) -> (r: Result<
    SaveAction,
    ClmanError,
>)
    ensures
        match r {
            Ok(act) => spec_compute_string(save.0@, *env) matches Some(nm) && (gpu.buffer_of(nm)
                matches Some(b) && match *to {
                Storage::Raw { path } => act matches SaveAction::RawFile { path: p, bytes }
                    && spec_compute_string(path.0@, *env) == Some(p@) && bytes@ == b.data@,
                Storage::Image { path, x, y } => act matches SaveAction::ImageFile {
                    path: p,
                    width,
                    height,
                    pixels,
                } && spec_compute_string(path.0@, *env) == Some(p@) && spec_compute_num(
                    x.num_model(),
                    *env,
                    0,
                    usize::MAX as int,
                    false,
                ) == Some(width as int) && spec_compute_num(
                    y.num_model(),
                    *env,
                    0,
                    usize::MAX as int,
                    false,
                ) == Some(height as int) && b.data@.len() == 16 * width * height && pixels@.len()
                    == width * height && (forall|k: int|
                    0 <= k < pixels@.len() ==> (#[trigger] pixels@[k]).r as int == word32_at(
                        b.data@,
                        4 * k,
                    ) && pixels@[k].g as int == word32_at(b.data@, 4 * k + 1) && pixels@[k].b as int
                        == word32_at(b.data@, 4 * k + 2) && pixels@[k].a as int == word32_at(
                        b.data@,
                        4 * k + 3,
                    )),
            }),
            Err(e) => match spec_compute_string(save.0@, *env) {
                None => e is ValueCompute,
                Some(nm) => match gpu.buffer_of(nm) {
                    None => e is Buffer,
                    Some(b) => match *to {
                        Storage::Raw { path } => spec_compute_string(path.0@, *env) is None && e
                            is ValueCompute,
                        Storage::Image { path, x, y } => match spec_compute_string(
                            path.0@,
                            *env,
                        ) {
                            None => e is ValueCompute,
                            Some(p) => match spec_compute_num(
                                x.num_model(),
                                *env,
                                0,
                                usize::MAX as int,
                                false,
                            ) {
                                None => e is ValueCompute,
                                Some(w) => match spec_compute_num(
                                    y.num_model(),
                                    *env,
                                    0,
                                    usize::MAX as int,
                                    false,
                                ) {
                                    None => e is ValueCompute,
                                    Some(h) => e is Buffer && b.data@.len() != 16 * w * h,
                                },
                            },
                        },
                    },
                },
            },
        },
{
    let nm = match save.compute(env) {
        Ok(t) => t,
        Err(e) => {
            return Err(e);
        },
    };
    let bytes = match gpu.read_buffer(&nm) {
        Ok(v) => v,
        Err(e) => {
            return Err(e);
        },
    };
    let blen = bytes.len();
    match to {
        Storage::Raw { path } => {
            let p = match path.compute(env) {
                Ok(t) => t,
                Err(e) => {
                    return Err(e);
                },
            };
            Ok(SaveAction::RawFile { path: p, bytes })
        },
        Storage::Image { path, x, y } => {
            let p = match path.compute(env) {
                Ok(t) => t,
                Err(e) => {
                    return Err(e);
                },
            };
            let w = match x.compute(env) {
                Ok(v) => v,
                Err(e) => {
                    return Err(e);
                },
            };
            let h = match y.compute(env) {
                Ok(v) => v,
                Err(e) => {
                    return Err(e);
                },
            };
            let total = match w.checked_mul(h) {
                Some(t) => t,
                None => {
                    proof {
                        assert(16 * ((w as int) * (h as int)) >= (w as int) * (h as int));
                        lemma_len_not_product(blen as int, w as int, h as int);
                    }
                    return Err(
                        ClmanError::Buffer {
                            message: String::from_str(
                                "image dimensions exceed the buffer's byte length",
                            ),
                        },
                    );
                },
            };
            let expected = match total.checked_mul(16) {
                Some(t) => t,
                None => {
                    proof {
                        assert(16 * ((w as int) * (h as int)) == 16 * (total as int));
                        lemma_len_not_product(blen as int, w as int, h as int);
                    }
                    return Err(
                        ClmanError::Buffer {
                            message: String::from_str(
                                "image dimensions exceed the buffer's byte length",
                            ),
                        },
                    );
                },
            };
            proof {
                lemma_mul16(w as int, h as int, total as int);
            }
            if blen != expected {
                return Err(
                    ClmanError::Buffer {
                        message: String::from_str(
                            "image dimensions do not match the buffer's byte length",
                        ),
                    },
                );
            }
            proof {
                lemma_sixteen_split(total as int);
            }
            let words = words32_of_bytes(&bytes);
            let wlen = words.len();
            let mut pixels: Vec<Pixel> = Vec::new();
            let mut k: usize = 0;
            while k < total
                invariant
                    k <= total,
                    wlen == words@.len(),
                    words@.len() == 4 * total,
                    bytes@.len() == 16 * total,
                    forall|i: int|
                        0 <= i < words@.len() ==> #[trigger] words@[i] as int == word32_at(
                            bytes@,
                            i,
                        ),
                    pixels@.len() == k,
                    forall|q: int|
                        0 <= q < k ==> (#[trigger] pixels@[q]).r as int == word32_at(bytes@, 4 * q)
                            && pixels@[q].g as int == word32_at(bytes@, 4 * q + 1)
                            && pixels@[q].b as int == word32_at(bytes@, 4 * q + 2)
                            && pixels@[q].a as int == word32_at(bytes@, 4 * q + 3),
                decreases total - k,
            {
                let px = Pixel {
                    r: words[4 * k],
                    g: words[4 * k + 1],
                    b: words[4 * k + 2],
                    a: words[4 * k + 3],
                };
                pixels.push(px);
                k = k + 1;
            }
            Ok(SaveAction::ImageFile { path: p, width: w, height: h, pixels })
        },
    }
}

/// A byte length below the machine limit cannot equal a 16-byte-pixel
/// product that overflows it.
proof fn lemma_len_not_product(len: int, w: int, h: int)
    requires
        0 <= len <= usize::MAX as int,
        0 <= w,
        0 <= h,
        16 * (w * h) > usize::MAX as int,
    ensures
        len != 16 * w * h,
{
    assert(16 * (w * h) == 16 * w * h) by (nonlinear_arith);
}

/// Multiplying by sixteen factors through the pixel count.
proof fn lemma_mul16(w: int, h: int, total: int)
    requires
        total == w * h,
    ensures
        16 * total == 16 * w * h,
{
    assert(16 * (w * h) == 16 * w * h) by (nonlinear_arith);
}

/// A sixteen-pixel-byte length splits into 32-bit words cleanly.
proof fn lemma_sixteen_split(total: int)
    requires
        total >= 0,
    ensures
        (16 * total) % 4 == 0,
        (16 * total) / 4 == 4 * total,
{
    assert((16 * total) % 4 == 0 && (16 * total) / 4 == 4 * total) by (nonlinear_arith);
}

} // verus!
