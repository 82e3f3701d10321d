//! Buffers, argument marshalling, and save planning.

use clman::conf::{Arg, Buffer, BufferType, Storage};
use clman::env::Environment;
use clman::error::ClmanError;
use clman::gpu::{words32_of_bytes, BoundArg, ScalarArg, GPU};
use clman::jobs::{allocate_buffers, plan_save, SaveAction};
use clman::value::{Value, ValueString};

#[test]
fn element_widths_are_fixed() {
    assert_eq!(BufferType::Char.size_of(), 1);
    assert_eq!(BufferType::Uchar.size_of(), 1);
    assert_eq!(BufferType::Short.size_of(), 2);
    assert_eq!(BufferType::Ushort.size_of(), 2);
    assert_eq!(BufferType::Int.size_of(), 4);
    assert_eq!(BufferType::Uint.size_of(), 4);
    assert_eq!(BufferType::Long.size_of(), 8);
    assert_eq!(BufferType::Ulong.size_of(), 8);
    assert_eq!(BufferType::Float.size_of(), 4);
    assert_eq!(BufferType::Double.size_of(), 8);
    assert_eq!(BufferType::Float4.size_of(), 16);
}

#[test]
fn float32_buffer_round_trip() {
    let env = Environment::new(None);
    let mut gpu = GPU::new("kernel void w() {}".to_string());
    gpu.create_buffer("b".to_string(), BufferType::Float, 4).unwrap();

    // the kernel writes [1.0, 2.0, 3.0, 4.0]
    let mut bytes: Vec<u8> = Vec::new();
    for f in [1.0f32, 2.0, 3.0, 4.0] {
        bytes.extend_from_slice(&f.to_le_bytes());
    }
    gpu.write_buffer(&"b".to_string(), bytes).unwrap();

    let back = gpu.read_buffer(&"b".to_string()).unwrap();
    let words = words32_of_bytes(&back);
    let values: Vec<f32> = words.iter().map(|w| f32::from_bits(*w)).collect();
    assert_eq!(values, vec![1.0f32, 2.0, 3.0, 4.0]);
    let _ = env;
}

#[test]
fn fill_kernel_scenario() {
    // src = {"main": File("k.cl")}, buffers = {"b": uint32 x 4},
    // one run of a fill kernel with Arg::Buffer("b") and Arg::Uint(7)
    let env = Environment::new(None);
    let mut gpu = GPU::new("kernel void fill() {}".to_string());
    let decls = vec![
        (
            "b".to_string(),
            Buffer { buffer_type: BufferType::Uint, count: Value::Static(4) },
        ),
    ];
    allocate_buffers(&mut gpu, &decls, &env).unwrap();

    let args = vec![
        Arg::Buffer(ValueString::from_str("b")),
        Arg::Uint(Value::Static(7)),
    ];
    let call = gpu.run_kernel(&env, "fill".to_string(), &args, 4).unwrap();
    assert_eq!(call.name, "fill".to_string());
    assert_eq!(call.global_work_size, 4);
    assert_eq!(call.args.len(), 2);
    match &call.args[0] {
        BoundArg::BufferIndex(ix) => assert_eq!(*ix, 0),
        other => panic!("expected a buffer binding, got a scalar: {:?}", matches!(other, BoundArg::Scalar(_))),
    }
    match &call.args[1] {
        BoundArg::Scalar(ScalarArg::U32(v)) => assert_eq!(*v, 7),
        _ => panic!("expected a uint scalar binding"),
    }

    // the dispatched kernel fills the buffer with 7
    let mut bytes: Vec<u8> = Vec::new();
    for _ in 0..4 {
        bytes.extend_from_slice(&7u32.to_le_bytes());
    }
    gpu.write_buffer(&"b".to_string(), bytes).unwrap();
    let back = gpu.read_buffer(&"b".to_string()).unwrap();
    let words = words32_of_bytes(&back);
    assert_eq!(words, vec![7u32, 7, 7, 7]);
}

#[test]
fn save_image_scenario() {
    // a float4 buffer [(1,0,0,1), (0,1,0,1)] saved as a 2x1 image
    let env = Environment::new(None);
    let mut gpu = GPU::new("kernel void paint() {}".to_string());
    gpu.create_buffer("img".to_string(), BufferType::Float4, 2).unwrap();
    let mut bytes: Vec<u8> = Vec::new();
    for f in [1.0f32, 0.0, 0.0, 1.0, 0.0, 1.0, 0.0, 1.0] {
        bytes.extend_from_slice(&f.to_le_bytes());
    }
    gpu.write_buffer(&"img".to_string(), bytes).unwrap();

    let to = Storage::Image {
        path: ValueString::from_str("out.png"),
        x: Value::Static(2),
        y: Value::Static(1),
    };
    let act = plan_save(&gpu, &env, &ValueString::from_str("img"), &to).unwrap();
    match act {
        SaveAction::ImageFile { path, width, height, pixels } => {
            assert_eq!(path, "out.png".to_string());
            assert_eq!((width, height), (2, 1));
            assert_eq!(pixels.len(), 2);
            // each channel scales from 0.0..1.0 to 8 bits by truncation
            let chan = |bits: u32| (f32::from_bits(bits) * 255.0) as u8;
            let p0 = (chan(pixels[0].r), chan(pixels[0].g), chan(pixels[0].b), chan(pixels[0].a));
            let p1 = (chan(pixels[1].r), chan(pixels[1].g), chan(pixels[1].b), chan(pixels[1].a));
            assert_eq!(p0, (255, 0, 0, 255), "pixel 0 is pure red, fully opaque");
            assert_eq!(p1, (0, 255, 0, 255), "pixel 1 is pure green, fully opaque");
        },
        SaveAction::RawFile { .. } => panic!("expected an image plan"),
    }
}

#[test]
fn save_raw_keeps_bytes() {
    let env = Environment::new(None);
    let mut gpu = GPU::new("".to_string());
    gpu.create_buffer("b".to_string(), BufferType::Uchar, 3).unwrap();
    gpu.write_buffer(&"b".to_string(), vec![9u8, 8, 7]).unwrap();
    let to = Storage::Raw { path: ValueString::from_str("dump.bin") };
    match plan_save(&gpu, &env, &ValueString::from_str("b"), &to).unwrap() {
        SaveAction::RawFile { path, bytes } => {
            assert_eq!(path, "dump.bin".to_string());
            assert_eq!(bytes, vec![9u8, 8, 7]);
        },
        SaveAction::ImageFile { .. } => panic!("expected a raw plan"),
    }
}

#[test]
fn unknown_buffer_in_arg_is_a_buffer_error() {
    let env = Environment::new(None);
    let gpu = GPU::new("".to_string());
    let args = vec![Arg::Buffer(ValueString::from_str("missing"))];
    match gpu.run_kernel(&env, "k".to_string(), &args, 1) {
        Err(ClmanError::Buffer { .. }) => {},
        other => panic!("expected a buffer error, got {:?}", other.is_ok()),
    }
}

#[test]
fn unknown_buffer_in_save_is_a_buffer_error() {
    let env = Environment::new(None);
    let gpu = GPU::new("".to_string());
    let to = Storage::Raw { path: ValueString::from_str("x.bin") };
    match plan_save(&gpu, &env, &ValueString::from_str("missing"), &to) {
        Err(ClmanError::Buffer { .. }) => {},
        other => panic!("expected a buffer error, got {:?}", other.is_ok()),
    }
}

#[test]
fn same_named_buffer_is_replaced() {
    let env = Environment::new(None);
    let mut gpu = GPU::new("".to_string());
    gpu.create_buffer("b".to_string(), BufferType::Uint, 2).unwrap();
    gpu.create_buffer("b".to_string(), BufferType::Uchar, 3).unwrap();
    let back = gpu.read_buffer(&"b".to_string()).unwrap();
    assert_eq!(back.len(), 3);
    let _ = env;
}

#[test]
fn buffer_length_is_fixed_for_its_lifetime() {
    let mut gpu = GPU::new("".to_string());
    gpu.create_buffer("b".to_string(), BufferType::Uint, 2).unwrap();
    match gpu.write_buffer(&"b".to_string(), vec![1u8, 2, 3]) {
        Err(ClmanError::Buffer { .. }) => {},
        other => panic!("expected a buffer error, got {:?}", other.is_ok()),
    }
}

#[test]
fn dynamic_counts_compute_against_the_environment() {
    let mut env = Environment::new(None);
    env.set("n".to_string(), "4".to_string());
    let mut gpu = GPU::new("".to_string());
    let decls = vec![
        (
            "b".to_string(),
            Buffer {
                buffer_type: BufferType::Uint,
                count: Value::Dynamic(ValueString::from_str("$n")),
            },
        ),
    ];
    allocate_buffers(&mut gpu, &decls, &env).unwrap();
    let back = gpu.read_buffer(&"b".to_string()).unwrap();
    assert_eq!(back.len(), 16);
}

#[test]
fn uncomputable_count_aborts_allocation() {
    let env = Environment::new(None);
    let mut gpu = GPU::new("".to_string());
    let decls = vec![
        (
            "b".to_string(),
            Buffer {
                buffer_type: BufferType::Uint,
                count: Value::Dynamic(ValueString::from_str("$n")),
            },
        ),
    ];
    match allocate_buffers(&mut gpu, &decls, &env) {
        Err(ClmanError::ValueCompute { .. }) => {},
        other => panic!("expected a value computation error, got {:?}", other.is_ok()),
    }
}

#[test]
fn short_and_long_buffers_reinterpret() {
    let mut gpu = GPU::new("".to_string());
    gpu.create_buffer("s".to_string(), BufferType::Short, 2).unwrap();
    let mut sbytes: Vec<u8> = Vec::new();
    for v in [(-5i16) as u16, 300u16] {
        sbytes.extend_from_slice(&v.to_le_bytes());
    }
    gpu.write_buffer(&"s".to_string(), sbytes).unwrap();
    let words = clman::gpu::words16_of_bytes(&gpu.read_buffer(&"s".to_string()).unwrap());
    assert_eq!(words[0] as i16, -5i16);
    assert_eq!(words[1], 300u16);

    gpu.create_buffer("l".to_string(), BufferType::Ulong, 2).unwrap();
    let mut lbytes: Vec<u8> = Vec::new();
    for v in [1u64 << 40, u64::MAX] {
        lbytes.extend_from_slice(&v.to_le_bytes());
    }
    gpu.write_buffer(&"l".to_string(), lbytes).unwrap();
    let words = clman::gpu::words64_of_bytes(&gpu.read_buffer(&"l".to_string()).unwrap());
    assert_eq!(words, vec![1u64 << 40, u64::MAX]);
}

#[test]
fn oversized_image_dimensions_are_a_buffer_error() {
    let env = Environment::new(None);
    let mut gpu = GPU::new("".to_string());
    gpu.create_buffer("img".to_string(), BufferType::Float4, 2).unwrap();
    let to = Storage::Image {
        path: ValueString::from_str("out.png"),
        x: Value::Static(3),
        y: Value::Static(1),
    };
    match plan_save(&gpu, &env, &ValueString::from_str("img"), &to) {
        Err(ClmanError::Buffer { .. }) => {},
        other => panic!("expected a buffer error, got {:?}", other.is_ok()),
    }
}

#[test]
fn oversized_allocation_is_a_buffer_error() {
    let mut gpu = GPU::new("".to_string());
    match gpu.create_buffer("huge".to_string(), BufferType::Float4, usize::MAX / 2) {
        Err(ClmanError::Buffer { .. }) => {},
        other => panic!("expected a buffer error, got {:?}", other.is_ok()),
    }
}
