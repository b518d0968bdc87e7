//! Code generation, text rendering and configuration file lookup.

use harden::cfgfile::{find, Type};
use harden::codegen::{generate, generate_cpp_res, parse_language, Language};
use harden::kernel_codegen::{generate_hpp, Expression, Statement};
use harden::runtypes;
use harden::strutil::{u64_to_dec, u64_to_hex};

#[test]
fn test_find() {
    assert_eq!(find(Type::System, "root", "foo"), "root/systems/foo.dhall")
}

#[test]
fn find_knows_all_kinds() {
    assert_eq!(find(Type::Application, "r", "app"), "r/apps/app.dhall");
    assert_eq!(find(Type::Machine, "r", "m"), "r/machines/m.dhall");
}

#[test]
fn expression_expression() {
    assert_eq!(Expression::LiteralUnsigned(0x1234).render(), "0x1234");
    assert_eq!(
        Expression::AddressOf(Box::new(Expression::Identifier("foo".to_string()))).render(),
        "&(foo)"
    );
}

#[test]
fn statement_display() {
    assert_eq!(
        Statement::Include {
            header: "state.hpp".to_string()
        }
        .render(),
        "#include \"state.hpp\""
    );
    assert_eq!(
        Statement::ArrayFwdDeclaration {
            ctype: "char".to_string(),
            name: "foo".to_string(),
            count: 7
        }
        .render(),
        "extern char foo[7];"
    );
    assert_eq!(
        Statement::ArrayDefinition {
            ctype: "object".to_string(),
            name: "foo".to_string(),
            init_args: vec![
                Expression::LiteralUnsigned(7),
                Expression::Identifier("id".to_string())
            ]
        }
        .render(),
        "object foo[2] {0x7, id};"
    );
    assert_eq!(
        Statement::AnonNamespace {
            statements: vec![Statement::VariableDefinition {
                ctype: "char".to_string(),
                name: "foo".to_string(),
                init_args: vec![]
            },]
        }
        .render(),
        "namespace {\nchar foo {};\n}"
    )
}

#[test]
fn numbers_render_exactly() {
    assert_eq!(u64_to_dec(0), "0");
    assert_eq!(u64_to_dec(42), "42");
    assert_eq!(u64_to_dec(1234567890), "1234567890");
    assert_eq!(u64_to_hex(0), "0x0");
    assert_eq!(u64_to_hex(0x1234), "0x1234");
    assert_eq!(u64_to_hex(0xdeadbeef), "0xdeadbeef");
}

#[test]
fn language_parsing_accepts_cpp_only() {
    assert!(matches!(parse_language("c++"), Ok(Language::CPP)));
    assert!(matches!(parse_language("C++"), Ok(Language::CPP)));
    let err = parse_language("rust").unwrap_err();
    assert_eq!(err.unrecognized, "rust");
    assert_eq!(
        err.message(),
        "Unrecognized language 'rust', must be one of: c++"
    );
}

fn empty_process(name: &str) -> runtypes::Process {
    runtypes::Process {
        name: name.to_string(),
        binary: name.to_string(),
        resources: vec![],
        anon_mem: vec![],
        stack_ptr: 0,
        heap_start: 0,
        heap_end: 0,
    }
}

#[test]
fn cpp_header_for_timer_resource() {
    let mut p = empty_process("clock");
    p.resources.push((
        "timer".to_string(),
        runtypes::Resource {
            meta: runtypes::ResourceMetaInfo::SBITimer { freq_hz: 10000 },
            opt_region: None,
        },
    ));
    let out = generate(Language::CPP, &p);
    assert!(out.starts_with("// Automatically generated. Do not touch.\n"));
    assert!(out.ends_with("\nconstexpr uint64_t timer_freq_hz {10000};\n"));
}

#[test]
fn cpp_declarations_for_plic() {
    let res = runtypes::Resource {
        meta: runtypes::ResourceMetaInfo::SifivePlic { ndev: 31 },
        opt_region: Some(runtypes::VirtualMemoryRegion {
            virt_start: 0x40000000,
            phys: runtypes::MemoryRegion::Phys {
                start: 0xc000000,
                size: 0x4000000,
            },
        }),
    };
    assert_eq!(
        generate_cpp_res("plic", &res),
        "\nconstexpr uint16_t plic_ndev {31};\ninline uint32_t volatile * const plic_reg \
         {reinterpret_cast<uint32_t volatile *>(0x40000000ul)};\n"
    );
}

#[test]
fn hpp_declares_thread_table() {
    let system = runtypes::Configuration {
        name: "sys".to_string(),
        available_memory: vec![],
        kernel: empty_process("kern"),
        processes: vec![empty_process("a"), empty_process("b")],
    };
    assert_eq!(
        generate_hpp(&system).unwrap(),
        "#pragma once\n#include \"thread.hpp\"\nextern thread * const threads[2];\n"
    );
}
