//! Generate process configuration code from resource descriptions.

use vstd::prelude::*;
use vstd::string::StringExecFns;

use crate::elf::str_eq;
use crate::framebuffer;
use crate::runtypes;
use crate::strutil::{dec_digits, hex_str, join_strings, spec_join, u64_to_dec, u64_to_hex};

verus! {

/// The supported programming languages for code generation output.
#[derive(Copy, Clone, PartialEq, Eq, Structural, Debug)]
pub enum Language {
    /// C++
    CPP,
}

/// The error returned for a string that does not name a language.
#[derive(Debug)]
pub struct LanguageParseError {
    /// The string that was not recognized as a language.
    pub unrecognized: String,
}

impl LanguageParseError {
    /// The human-readable description of the failure.
    pub fn message(&self) -> (r: String)
        ensures
            r@ == "Unrecognized language '"@ + self.unrecognized@ + "', must be one of: c++"@,
    {
        let mut s: String = "Unrecognized language '".to_owned();
        s.append(self.unrecognized.as_str());
        s.append("', must be one of: c++");
        proof {
            assert(s@ =~= "Unrecognized language '"@ + self.unrecognized@
                + "', must be one of: c++"@);
        }
        s
    }
}

/// Parse a language name, ignoring the case of its letters.
pub fn parse_language(s: &str) -> (r: Result<Language, LanguageParseError>)
    ensures
        match r {
            Ok(l) => l == Language::CPP && (s@ == "c++"@ || s@ == "C++"@),
            Err(e) => e.unrecognized@ == s@ && s@ != "c++"@ && s@ != "C++"@,
        },
{
    if str_eq(s, "c++") || str_eq(s, "C++") {
        Ok(Language::CPP)
    } else {
        Err(LanguageParseError { unrecognized: s.to_owned() })
    }
}

/// Whether a resource can be rendered: the devices that live in memory carry
/// their region, and a framebuffer has a layout the generated code can
/// describe.
pub open spec fn renderable_resource(res: runtypes::Resource) -> bool {
    match res.meta {
        runtypes::ResourceMetaInfo::SifivePlic { .. } => res.opt_region is Some,
        runtypes::ResourceMetaInfo::SpinalGpio { .. } => res.opt_region is Some,
        runtypes::ResourceMetaInfo::Framebuffer { format } => res.opt_region is Some
            && format.pixel == framebuffer::PixelFormat::R5G6B5 && format.stride % 2 == 0,
        runtypes::ResourceMetaInfo::SBITimer { .. } => true,
    }
}

/// The C++ text declaring one named resource.
pub open spec fn spec_cpp_res(name: Seq<char>, res: runtypes::Resource) -> Seq<char> {
    match res.meta {
        runtypes::ResourceMetaInfo::SifivePlic { ndev } => "\nconstexpr uint16_t "@ + name
            + "_ndev {"@ + dec_digits(ndev as int) + "};\ninline uint32_t volatile * const "@
            + name + "_reg {reinterpret_cast<uint32_t volatile *>("@ + hex_str(
            res.opt_region->0.virt_start as int,
        ) + "ul)};\n"@,
        runtypes::ResourceMetaInfo::SpinalGpio { ngpio } => "\nconstexpr uint16_t "@ + name
            + "_ngpio {"@ + dec_digits(ngpio as int) + "};\ninline uint32_t volatile * const "@
            + name + "_reg {reinterpret_cast<uint32_t volatile *>("@ + hex_str(
            res.opt_region->0.virt_start as int,
        ) + "ul)};\n"@,
        runtypes::ResourceMetaInfo::SBITimer { freq_hz } => "\nconstexpr uint64_t "@ + name
            + "_freq_hz {"@ + dec_digits(freq_hz as int) + "};\n"@,
        runtypes::ResourceMetaInfo::Framebuffer { format } => "\nconstexpr size_t "@ + name
            + "_width {"@ + dec_digits(format.width as int) + "};\nconstexpr size_t "@ + name
            + "_height {"@ + dec_digits(format.height as int)
            + "};\ninline uint16_t volatile (&"@ + name + "_pixels)["@ + name + "_height]["@
            + dec_digits((format.stride / 2) as int)
            + "] {*reinterpret_cast<uint16_t volatile (*)["@ + name + "_height]["@ + dec_digits(
            (format.stride / 2) as int,
        ) + "]>("@ + hex_str(res.opt_region->0.virt_start as int) + ")};\n\n"@,
    }
}

/// Render the C++ declarations for one named resource.
pub fn generate_cpp_res(name: &str, resource: &runtypes::Resource) -> (r: String)
    requires
        renderable_resource(*resource),
    ensures
        r@ == spec_cpp_res(name@, *resource),
{
    match &resource.meta {
        runtypes::ResourceMetaInfo::SifivePlic { ndev } => {
            let region = match &resource.opt_region {
                Some(v) => v,
                None => {
                    proof {
                        assert(false);
                    }
                    return String::new();
                },
            };
            let mut s: String = "\nconstexpr uint16_t ".to_owned();
            s.append(name);
            s.append("_ndev {");
            s.append(u64_to_dec(*ndev as u64).as_str());
            s.append("};\ninline uint32_t volatile * const ");
            s.append(name);
            s.append("_reg {reinterpret_cast<uint32_t volatile *>(");
            s.append(u64_to_hex(region.virt_start).as_str());
            s.append("ul)};\n");
            proof {
                assert(s@ =~= spec_cpp_res(name@, *resource));
            }
            s
        },
        runtypes::ResourceMetaInfo::SpinalGpio { ngpio } => {
            let region = match &resource.opt_region {
                Some(v) => v,
                None => {
                    proof {
                        assert(false);
                    }
                    return String::new();
                },
            };
            let mut s: String = "\nconstexpr uint16_t ".to_owned();
            s.append(name);
            s.append("_ngpio {");
            s.append(u64_to_dec(*ngpio as u64).as_str());
            s.append("};\ninline uint32_t volatile * const ");
            s.append(name);
            s.append("_reg {reinterpret_cast<uint32_t volatile *>(");
            s.append(u64_to_hex(region.virt_start).as_str());
            s.append("ul)};\n");
            proof {
                assert(s@ =~= spec_cpp_res(name@, *resource));
            }
            s
        },
        runtypes::ResourceMetaInfo::SBITimer { freq_hz } => {
            let mut s: String = "\nconstexpr uint64_t ".to_owned();
            s.append(name);
            s.append("_freq_hz {");
            s.append(u64_to_dec(*freq_hz).as_str());
            s.append("};\n");
            proof {
                assert(s@ =~= spec_cpp_res(name@, *resource));
            }
            s
        },
        runtypes::ResourceMetaInfo::Framebuffer { format } => {
            let region = match &resource.opt_region {
                Some(v) => v,
                None => {
                    proof {
                        assert(false);
                    }
                    return String::new();
                },
            };
            let half_stride = u64_to_dec((format.stride / 2) as u64);
            let mut s: String = "\nconstexpr size_t ".to_owned();
            s.append(name);
            s.append("_width {");
            s.append(u64_to_dec(format.width as u64).as_str());
            s.append("};\nconstexpr size_t ");
            s.append(name);
            s.append("_height {");
            s.append(u64_to_dec(format.height as u64).as_str());
            s.append("};\ninline uint16_t volatile (&");
            s.append(name);
            s.append("_pixels)[");
            s.append(name);
            s.append("_height][");
            s.append(half_stride.as_str());
            s.append("] {*reinterpret_cast<uint16_t volatile (*)[");
            s.append(name);
            s.append("_height][");
            s.append(half_stride.as_str());
            s.append("]>(");
            s.append(u64_to_hex(region.virt_start).as_str());
            s.append(")};\n\n");
            proof {
                assert(s@ =~= spec_cpp_res(name@, *resource));
            }
            s
        },
    }
}

/// The fixed preamble of a generated per-process header.
pub open spec fn spec_cpp_preamble() -> Seq<char> {
    "// Automatically generated. Do not touch.\n\n#pragma once\n\n#if __STDC_HOSTED__\n#include <cstddef>\n#include <cstdint>\n#else\n#include <epoxy-api/c_types.hpp>\n#endif\n\n"@
}

/// Render the per-process configuration header: the preamble, then every
/// resource's declarations, newline-separated, in resource order.
pub fn generate(language: Language, process: &runtypes::Process) -> (r: String)
    requires
        forall|i: int|
            0 <= i < process.resources@.len() ==> renderable_resource(
                (#[trigger] process.resources@[i]).1,
            ),
    ensures
        r@ == spec_cpp_preamble() + spec_join(
            Seq::new(
                process.resources@.len(),
                |i: int| spec_cpp_res(process.resources@[i].0@, process.resources@[i].1),
            ),
            "\n"@,
        ),
{
    match language {
        Language::CPP => {
            let mut parts: Vec<String> = Vec::new();
            let mut i: usize = 0;
            while i < process.resources.len()
                invariant
                    forall|k: int|
                        0 <= k < process.resources@.len() ==> renderable_resource(
                            (#[trigger] process.resources@[k]).1,
                        ),
                    i <= process.resources@.len(),
                    parts@.len() == i,
                    forall|j: int| 0 <= j < i ==> (#[trigger] parts@[j])@ == spec_cpp_res(
                        process.resources@[j].0@,
                        process.resources@[j].1,
                    ),
                decreases process.resources@.len() - i,
            {
                let entry = &process.resources[i];
                parts.push(generate_cpp_res(entry.0.as_str(), &entry.1));
                i = i + 1;
            }
            let mut out: String =
                "// Automatically generated. Do not touch.\n\n#pragma once\n\n#if __STDC_HOSTED__\n#include <cstddef>\n#include <cstdint>\n#else\n#include <epoxy-api/c_types.hpp>\n#endif\n\n".to_owned();
            proof {
                assert(parts@.map_values(|p: String| p@) =~= Seq::new(
                    process.resources@.len(),
                    |j: int| spec_cpp_res(process.resources@[j].0@, process.resources@[j].1),
                ));
            }
            out.append(join_strings(&parts, "\n").as_str());
            out
        },
    }
}

} // verus!
