//! Resolving needs, mappings and devices into a configured system.

use harden::cfgtypes;
use harden::epoxy::{
    configure_system, epoxy_list_processes, epoxy_verify, get_process_valloc, make_user_stack,
    map_resource, str_le, to_process_resources,
};
use harden::error::Error;
use harden::runtypes;

fn machine() -> cfgtypes::Machine {
    cfgtypes::Machine {
        name: "board".to_string(),
        available_memory: vec![cfgtypes::MemoryRegion {
            start: 0x84000000,
            size: 0x1000000,
        }],
        devices: vec![
            cfgtypes::NamedResource {
                name: "plic".to_string(),
                resource: cfgtypes::Resource::SiFivePLIC {
                    ndev: 31,
                    region: cfgtypes::MemoryRegion {
                        start: 0xc000000,
                        size: 0x4000000,
                    },
                },
            },
            cfgtypes::NamedResource {
                name: "timer".to_string(),
                resource: cfgtypes::Resource::SBITimer { freq_hz: 10000 },
            },
        ],
    }
}

#[test]
fn needs_resolve_through_mappings() {
    let m = machine();
    let mappings = vec![cfgtypes::Mapping {
        from: "plic".to_string(),
        to: "hello.irq".to_string(),
    }];
    let needs = vec![cfgtypes::NamedResourceType {
        name: "irq".to_string(),
        kind: cfgtypes::ResourceType::SiFivePLIC,
    }];

    let mut valloc = get_process_valloc(true);
    let rm = to_process_resources(&mut valloc, "hello", &needs, &mappings, &m.devices).unwrap();
    assert_eq!(rm.len(), 1);
    assert_eq!(rm[0].0, "irq");
    let region = rm[0].1.opt_region.as_ref().unwrap();
    assert_eq!(region.virt_start, 0x40000000);
    assert_eq!(region.size(), 0x4000000);
}

#[test]
fn unresolved_needs_are_fatal() {
    let m = machine();
    let needs = vec![cfgtypes::NamedResourceType {
        name: "irq".to_string(),
        kind: cfgtypes::ResourceType::SiFivePLIC,
    }];

    let mut valloc = get_process_valloc(true);
    let r = to_process_resources(&mut valloc, "hello", &needs, &vec![], &m.devices);
    assert_eq!(r.unwrap_err(), Error::MappingUnresolved);

    let bad_mapping = vec![cfgtypes::Mapping {
        from: "nosuchdev".to_string(),
        to: "hello.irq".to_string(),
    }];
    let mut valloc = get_process_valloc(true);
    let r = to_process_resources(&mut valloc, "hello", &needs, &bad_mapping, &m.devices);
    assert_eq!(r.unwrap_err(), Error::MappingUnresolved);
}

#[test]
fn timers_carry_no_region() {
    let mut valloc = get_process_valloc(true);
    let res = map_resource(
        &mut valloc,
        &cfgtypes::Resource::SBITimer { freq_hz: 32768 },
    )
    .unwrap();
    assert!(res.opt_region.is_none());
    assert!(matches!(
        res.meta,
        runtypes::ResourceMetaInfo::SBITimer { freq_hz: 32768 }
    ));
}

#[test]
fn user_stack_is_guarded_and_grows_down() {
    let mut valloc = get_process_valloc(true);
    let (stack, sp) = make_user_stack(&mut valloc).unwrap();

    // One guard page precedes the stack; the pointer starts at the top.
    assert_eq!(stack.virt_start, 0x40001000);
    assert_eq!(stack.size(), 0x4000);
    assert_eq!(sp, 0x40005000);
}

#[test]
fn configured_processes_are_sorted_by_name() {
    let m = machine();
    let system = cfgtypes::System {
        name: "sys".to_string(),
        machine: "board".to_string(),
        kernel: "kern".to_string(),
        processes: vec![
            cfgtypes::Process {
                name: "zeta".to_string(),
                program: "zprog".to_string(),
            },
            cfgtypes::Process {
                name: "alpha".to_string(),
                program: "aprog".to_string(),
            },
        ],
        mappings: vec![],
    };
    let app = cfgtypes::Application {
        name: "any".to_string(),
        heap_kb: 16,
        needs: vec![],
    };
    let kernel_app = cfgtypes::Application {
        name: "kern".to_string(),
        heap_kb: 0,
        needs: vec![],
    };

    let cfg = configure_system(&system, &m, &kernel_app, &vec![app.clone(), app]).unwrap();
    assert!(epoxy_verify(&cfg).is_ok());
    assert_eq!(epoxy_list_processes(&cfg), vec!["alpha", "zeta"]);
    assert_eq!(cfg.kernel.name, "kern");
    assert_eq!(cfg.processes[0].binary, "aprog");

    // A user process got its stack and its heap.
    assert_eq!(cfg.processes[0].anon_mem.len(), 2);
    assert_eq!(cfg.processes[0].heap_end - cfg.processes[0].heap_start, 16 * 1024);
}

#[test]
fn string_order_is_by_code_points() {
    assert!(str_le("alpha", "beta"));
    assert!(str_le("a", "ab"));
    assert!(!str_le("b", "ab"));
    assert!(str_le("same", "same"));
}
