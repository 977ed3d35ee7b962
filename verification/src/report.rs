//! The startup report: the diagnostic text the startup sequence emits from
//! a boot-information block. The format — one header line per table, one
//! indented line per record with lowercase hexadecimal fields, and a final
//! greeting — is the externally observable contract of the startup
//! sequence, so every line is pinned down exactly.

use crate::boot::{areas_from, sections_from, BootInfo, ElfSection, MemoryArea};
use crate::error::AxiomOsErr;
use vstd::prelude::*;
use vstd::string::StringExecFns;

verus! {

/// The lowercase hexadecimal digit of a value below sixteen.
pub open spec fn hex_digit_char(d: int) -> char {
    if d == 0 {
        '0'
    } else if d == 1 {
        '1'
    } else if d == 2 {
        '2'
    } else if d == 3 {
        '3'
    } else if d == 4 {
        '4'
    } else if d == 5 {
        '5'
    } else if d == 6 {
        '6'
    } else if d == 7 {
        '7'
    } else if d == 8 {
        '8'
    } else if d == 9 {
        '9'
    } else if d == 10 {
        'a'
    } else if d == 11 {
        'b'
    } else if d == 12 {
        'c'
    } else if d == 13 {
        'd'
    } else if d == 14 {
        'e'
    } else {
        'f'
    }
}

/// The lowercase hexadecimal digits of a number, most significant first,
/// without leading zeroes; zero itself is a single digit.
pub open spec fn hex_chars(n: nat) -> Seq<char>
    decreases n,
{
    if n < 16 {
        seq![hex_digit_char(n as int)]
    } else {
        hex_chars(n / 16) + seq![hex_digit_char((n % 16) as int)]
    }
}

/// One lowercase hexadecimal digit as text.
fn hex_digit(d: u8) -> (r: &'static str)
    requires
        d < 16,
    ensures
        r@ == seq![hex_digit_char(d as int)],
{
    proof {
        reveal_strlit("0");
        reveal_strlit("1");
        reveal_strlit("2");
        reveal_strlit("3");
        reveal_strlit("4");
        reveal_strlit("5");
        reveal_strlit("6");
        reveal_strlit("7");
        reveal_strlit("8");
        reveal_strlit("9");
        reveal_strlit("a");
        reveal_strlit("b");
        reveal_strlit("c");
        reveal_strlit("d");
        reveal_strlit("e");
        reveal_strlit("f");
    }
    match d {
        0 => "0",
        1 => "1",
        2 => "2",
        3 => "3",
        4 => "4",
        5 => "5",
        6 => "6",
        7 => "7",
        8 => "8",
        9 => "9",
        10 => "a",
        11 => "b",
        12 => "c",
        13 => "d",
        14 => "e",
        _ => "f",
    }
}

/// The digits collected so far, least significant first, read back most
/// significant first.
spec fn digits_chars(t: Seq<u8>) -> Seq<char> {
    Seq::new(t.len(), |i: int| hex_digit_char(t[t.len() - 1 - i] as int))
}

/// Appends the lowercase hexadecimal form of a value, without leading
/// zeroes.
fn append_hex(s: &mut String, x: u64)
    ensures
        final(s)@ == old(s)@ + hex_chars(x as nat),
{
    if x < 16 {
        let d = x as u8;
        s.append(hex_digit(d));
        return ;
    }
    let mut tmp: Vec<u8> = Vec::new();
    let mut cur = x;
    while cur > 0
        invariant
            forall|i: int| 0 <= i < tmp@.len() ==> tmp@[i] < 16,
            cur > 0 ==> hex_chars(x as nat) == hex_chars(cur as nat) + digits_chars(tmp@),
            cur == 0 ==> hex_chars(x as nat) == digits_chars(tmp@),
        decreases cur,
    {
        let d = (cur % 16) as u8;
        let ghost prev = tmp@;
        tmp.push(d);
        proof {
            assert(digits_chars(tmp@) =~= seq![hex_digit_char(d as int)] + digits_chars(prev));
        }
        let next = cur / 16;
        proof {
            if next > 0 {
                assert(cur >= 16);
                assert(hex_chars(cur as nat) == hex_chars(cur as nat / 16) + seq![
                    hex_digit_char((cur as nat % 16) as int),
                ]);
                assert(hex_chars(x as nat) =~= hex_chars(next as nat) + digits_chars(tmp@));
            } else {
                assert(cur < 16);
                assert(hex_chars(cur as nat) == seq![hex_digit_char(cur as int)]);
                assert(cur as int % 16 == cur as int);
                assert(hex_chars(x as nat) =~= digits_chars(tmp@));
            }
        }
        cur = next;
    }
    let n = tmp.len();
    let ghost base = s@;
    let mut i: usize = 0;
    while i < n
        invariant
            n == tmp@.len(),
            i <= n,
            forall|j: int| 0 <= j < tmp@.len() ==> tmp@[j] < 16,
            hex_chars(x as nat) == digits_chars(tmp@),
            s@ == base + digits_chars(tmp@).take(i as int),
        decreases n - i,
    {
        s.append(hex_digit(tmp[n - 1 - i]));
        proof {
            assert(digits_chars(tmp@)[i as int] == hex_digit_char(tmp@[n - 1 - i] as int));
            assert(digits_chars(tmp@).take(i + 1) =~= digits_chars(tmp@).take(i as int).push(
                digits_chars(tmp@)[i as int],
            ));
            assert(s@ =~= base + digits_chars(tmp@).take(i + 1));
        }
        i = i + 1;
    }
    proof {
        assert(digits_chars(tmp@).take(n as int) =~= digits_chars(tmp@));
    }
}

/// The report line of one memory area.
pub open spec fn memory_line_spec(a: MemoryArea) -> Seq<char> {
    "    start: 0x"@ + hex_chars(a.base_addr as nat) + ", length: 0x"@ + hex_chars(
        a.length as nat,
    )
}

/// The report line of one ELF section.
pub open spec fn section_line_spec(s: ElfSection) -> Seq<char> {
    "    addr: 0x"@ + hex_chars(s.addr as nat) + ", size: 0x"@ + hex_chars(s.size as nat)
        + ", flags: 0x"@ + hex_chars(s.flags as nat)
}

/// Renders the report line of one memory area.
pub fn memory_line(a: &MemoryArea) -> (r: String)
    ensures
        r@ == memory_line_spec(*a),
{
    let mut s = String::new();
    s.append("    start: 0x");
    append_hex(&mut s, a.base_addr);
    s.append(", length: 0x");
    append_hex(&mut s, a.length);
    proof {
        assert(s@ =~= memory_line_spec(*a));
    }
    s
}

/// Renders the report line of one ELF section.
pub fn section_line(sec: &ElfSection) -> (r: String)
    ensures
        r@ == section_line_spec(*sec),
{
    let mut s = String::new();
    s.append("    addr: 0x");
    append_hex(&mut s, sec.addr);
    s.append(", size: 0x");
    append_hex(&mut s, sec.size);
    s.append(", flags: 0x");
    append_hex(&mut s, sec.flags);
    proof {
        assert(s@ =~= section_line_spec(*sec));
    }
    s
}

/// The lines the startup sequence prints for a block: nothing when the
/// memory map is missing; the memory map alone when the section table is
/// missing; otherwise both tables and the final greeting.
pub open spec fn report_lines_spec(d: Seq<u8>) -> Seq<Seq<char>> {
    let areas = areas_from(d, 8);
    let sections = sections_from(d, 8);
    if areas.len() == 0 {
        Seq::empty()
    } else {
        let mem = seq!["memory address:"@] + areas.map_values(|a: MemoryArea| memory_line_spec(a));
        if sections.len() == 0 {
            mem
        } else {
            mem + seq!["kernel sections:"@] + sections.map_values(
                |s: ElfSection| section_line_spec(s),
            ) + seq!["Hello, AxiomOS!"@]
        }
    }
}

/// The error the startup sequence reports for a block: the memory map is
/// required first, then the section table; a block with both is accepted.
pub open spec fn report_err_spec(d: Seq<u8>) -> Option<AxiomOsErr> {
    if areas_from(d, 8).len() == 0 {
        Some(AxiomOsErr::CannotGetMemoryMapTag)
    } else if sections_from(d, 8).len() == 0 {
        Some(AxiomOsErr::CannotGetElfSectionTag)
    } else {
        None
    }
}

/// Produces the diagnostic lines of the startup sequence for a validated
/// block, together with the error, if any, that stops the sequence after
/// those lines.
pub fn startup_report(info: &BootInfo) -> (r: (Vec<String>, Option<AxiomOsErr>))
    requires
        info.wf(),
    ensures
        r.0.deep_view() == report_lines_spec(info@),
        r.1 == report_err_spec(info@),
{
    let mut lines: Vec<String> = Vec::new();
    let areas = match info.memory_map() {
        None => {
            proof {
                assert(lines.deep_view() =~= report_lines_spec(info@));
            }
            return (lines, Some(AxiomOsErr::CannotGetMemoryMapTag));
        },
        Some(v) => v,
    };
    lines.push("memory address:".to_owned());
    let ghost hdr = seq!["memory address:"@];
    let mut i: usize = 0;
    while i < areas.len()
        invariant
            i <= areas@.len(),
            areas@ == areas_from(info@, 8),
            lines.deep_view() == hdr + areas@.take(i as int).map_values(
                |a: MemoryArea| memory_line_spec(a),
            ),
            hdr == seq!["memory address:"@],
        decreases areas@.len() - i,
    {
        let ghost before = lines.deep_view();
        lines.push(memory_line(&areas[i]));
        proof {
            assert(lines.deep_view() =~= before.push(memory_line_spec(areas@[i as int])));
            assert(areas@.take(i + 1).map_values(|a: MemoryArea| memory_line_spec(a)) =~= areas@.take(
                i as int,
            ).map_values(|a: MemoryArea| memory_line_spec(a)).push(
                memory_line_spec(areas@[i as int]),
            ));
            assert(lines.deep_view() =~= hdr + areas@.take(i + 1).map_values(
                |a: MemoryArea| memory_line_spec(a),
            ));
        }
        i = i + 1;
    }
    proof {
        assert(areas@.take(areas@.len() as int) =~= areas@);
    }
    let sections = match info.elf_sections() {
        None => {
            proof {
                assert(lines.deep_view() =~= report_lines_spec(info@));
            }
            return (lines, Some(AxiomOsErr::CannotGetElfSectionTag));
        },
        Some(v) => v,
    };
    lines.push("kernel sections:".to_owned());
    let ghost mem = hdr + areas_from(info@, 8).map_values(|a: MemoryArea| memory_line_spec(a));
    let ghost khdr = seq!["kernel sections:"@];
    let mut j: usize = 0;
    while j < sections.len()
        invariant
            j <= sections@.len(),
            sections@ == sections_from(info@, 8),
            lines.deep_view() == mem + khdr + sections@.take(j as int).map_values(
                |s: ElfSection| section_line_spec(s),
            ),
            mem == seq!["memory address:"@] + areas_from(info@, 8).map_values(
                |a: MemoryArea| memory_line_spec(a),
            ),
            khdr == seq!["kernel sections:"@],
        decreases sections@.len() - j,
    {
        let ghost before = lines.deep_view();
        lines.push(section_line(&sections[j]));
        proof {
            assert(lines.deep_view() =~= before.push(section_line_spec(sections@[j as int])));
            assert(sections@.take(j + 1).map_values(|s: ElfSection| section_line_spec(s))
                =~= sections@.take(j as int).map_values(|s: ElfSection| section_line_spec(s)).push(
                section_line_spec(sections@[j as int]),
            ));
            assert(lines.deep_view() =~= mem + khdr + sections@.take(j + 1).map_values(
                |s: ElfSection| section_line_spec(s),
            ));
        }
        j = j + 1;
    }
    proof {
        assert(sections@.take(sections@.len() as int) =~= sections@);
    }
    let ghost before = lines.deep_view();
    lines.push("Hello, AxiomOS!".to_owned());
    proof {
        assert(lines.deep_view() =~= before.push("Hello, AxiomOS!"@));
        assert(lines.deep_view() =~= report_lines_spec(info@));
    }
    (lines, None)
}

} // verus!
