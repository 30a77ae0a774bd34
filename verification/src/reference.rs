//! Building the reference interpreter: which driver, which sources, and which host.
use vstd::prelude::*;
use vstd::string::{StrSliceExecFns, StringSliceAdditionalSpecFns};

use crate::text::same_bytes;

verus! {

/// Which of the reference's two drivers to link.
#[derive(Debug, Clone, Copy, PartialEq, Eq, Structural)]
pub enum Driver {
    Lua,
    Luac,
}

/// The name the driver's executable is built under.
pub open spec fn stem_of(driver: Driver) -> Seq<char> {
    match driver {
        Driver::Lua => "lua"@,
        Driver::Luac => "luac"@,
    }
}

/// The driver source that must be left out of the build.
pub open spec fn excluded_of(driver: Driver) -> Seq<char> {
    match driver {
        Driver::Lua => "luac.c"@,
        Driver::Luac => "lua.c"@,
    }
}

impl Driver {
    pub fn stem(self) -> (stem: &'static str)
        ensures
            stem@ == stem_of(self),
    {
        match self {
            Driver::Lua => "lua",
            Driver::Luac => "luac",
        }
    }

    /// The driver source that must be left out of this build.
    pub fn excluded(self) -> (name: &'static str)
        ensures
            name@ == excluded_of(self),
    {
        match self {
            Driver::Lua => "luac.c",
            Driver::Luac => "lua.c",
        }
    }
}

/// Whether a file is a C source of the build: its extension is `c`, and it is not the other
/// driver. `extension` is absent for a name with none.
pub open spec fn is_build_source(extension: Option<Seq<u8>>, file_name: Seq<u8>, driver: Driver) -> bool {
    &&& extension == Some(seq![0x63u8])
    &&& file_name != vstd::utf8::encode_utf8(excluded_of(driver))
}

pub fn is_build_source_file(extension: Option<&[u8]>, file_name: &[u8], driver: Driver) -> (kept: bool)
    ensures
        kept == is_build_source(
            match extension {
                Some(e) => Some(e@),
                None => None,
            },
            file_name@,
            driver,
        ),
{
    let is_c = match extension {
        Some(e) => e.len() == 1 && e[0] == 0x63,
        None => false,
    };
    proof {
        if let Some(e) = extension {
            if e.len() == 1 && e[0] == 0x63 {
                assert(e@ =~= seq![0x63u8]);
            }
        }
    }
    let excluded = driver.excluded().as_bytes_vec();
    is_c && !same_bytes(file_name, excluded.as_slice())
}

/// The lines of `text`, as `str::lines` gives them: split at each `\n`, a `\r` just before it
/// dropped too, and no empty last line after a final `\n`.
pub open spec fn lines_of(text: Seq<u8>) -> Seq<Seq<u8>>
    decreases text.len(),
{
    if text.len() == 0 {
        Seq::empty()
    } else {
        let end = first_newline(text, 0);
        let line = text.subrange(0, end);
        let line = if end < text.len() && line.len() > 0 && line.last() == 0x0d {
            line.drop_last()
        } else {
            line
        };
        if end < text.len() {
            proof {
                lemma_first_newline(text, 0);
            }
            seq![line] + lines_of(text.subrange(end + 1, text.len() as int))
        } else {
            seq![line]
        }
    }
}

/// Where the first `\n` at or after `from` is, or the length if there is none.
pub open spec fn first_newline(text: Seq<u8>, from: int) -> int
    decreases text.len() - from,
{
    if from >= text.len() || from < 0 {
        text.len() as int
    } else if text[from] == 0x0a {
        from
    } else {
        first_newline(text, from + 1)
    }
}

/// The prefix a `rustc -vV` report writes the host's target triple after.
pub open spec fn host_prefix() -> Seq<u8> {
    "host: ".spec_bytes()
}

/// The rest of the first line that starts with `host: `, if one does.
pub open spec fn host_in(lines: Seq<Seq<u8>>) -> Option<Seq<u8>>
    decreases lines.len(),
{
    if lines.len() == 0 {
        None
    } else if lines[0].len() >= host_prefix().len() && lines[0].subrange(0, host_prefix().len() as int) == host_prefix() {
        Some(lines[0].subrange(host_prefix().len() as int, lines[0].len() as int))
    } else {
        host_in(lines.drop_first())
    }
}

pub proof fn lemma_first_newline(text: Seq<u8>, from: int)
    requires
        0 <= from <= text.len(),
    ensures
        from <= first_newline(text, from) <= text.len(),
        first_newline(text, from) < text.len() ==> text[first_newline(text, from)] == 0x0a,
        forall|k: int| from <= k < first_newline(text, from) ==> text[k] != 0x0a,
    decreases text.len() - from,
{
    if from < text.len() && text[from] != 0x0a {
        lemma_first_newline(text, from + 1);
    }
}

proof fn lemma_first_newline_shift(text: Seq<u8>, start: int, from: int)
    requires
        0 <= start <= from <= text.len(),
    ensures
        first_newline(text.subrange(start, text.len() as int), from - start) + start == first_newline(text, from),
    decreases text.len() - from,
{
    let rest = text.subrange(start, text.len() as int);
    if from < text.len() {
        assert(rest[from - start] == text[from]);
        if text[from] != 0x0a {
            lemma_first_newline_shift(text, start, from + 1);
        }
    }
}

/// The host's target triple from a `rustc -vV` report: the rest of the first line that
/// starts with `host: `.
pub fn host_of(report: &[u8]) -> (host: Option<Vec<u8>>)
    ensures
        match host {
            Some(h) => host_in(lines_of(report@)) == Some(h@),
            None => host_in(lines_of(report@)) is None,
        },
{
    let prefix = "host: ".as_bytes_vec();
    let mut start: usize = 0;
    proof {
        assert(report@.subrange(0, report@.len() as int) =~= report@);
    }
    while start < report.len()
        invariant
            start <= report@.len(),
            prefix@ == host_prefix(),
            host_in(lines_of(report@)) == host_in(lines_of(report@.subrange(start as int, report@.len() as int))),
        decreases report@.len() - start,
    {
        let ghost rest = report@.subrange(start as int, report@.len() as int);
        let mut end = start;
        while end < report.len() && report[end] != 0x0a
            invariant
                start <= end <= report@.len(),
                forall|k: int| start <= k < end ==> report@[k] != 0x0a,
            decreases report@.len() - end,
        {
            end += 1;
        }
        proof {
            lemma_first_newline_shift(report@, start as int, start as int);
            lemma_first_newline(report@, start as int);
            if end < report.len() {
                assert(report@[end as int] == 0x0a);
            }
            assert(first_newline(report@, start as int) == end) by {
                if first_newline(report@, start as int) < end {
                    assert(report@[first_newline(report@, start as int)] == 0x0a);
                }
            }
            assert(rest.subrange(0, end - start) =~= report@.subrange(start as int, end as int));
        }
        let mut line_end = end;
        if end < report.len() && line_end > start && report[line_end - 1] == 0x0d {
            line_end -= 1;
        }
        let ghost line = report@.subrange(start as int, line_end as int);
        proof {
            let raw = report@.subrange(start as int, end as int);
            if line_end < end {
                assert(raw.drop_last() =~= line);
            } else {
                assert(raw =~= line);
            }
        }
        proof {
            let tail = if end < report@.len() {
                lines_of(report@.subrange(end + 1, report@.len() as int))
            } else {
                Seq::<Seq<u8>>::empty()
            };
            if end < report@.len() {
                assert(rest.subrange(end - start + 1, rest.len() as int) =~= report@.subrange(end + 1, report@.len() as int));
            }
            assert(lines_of(rest) =~= seq![line] + tail);
            assert(lines_of(rest)[0] == line);
            assert(lines_of(rest).drop_first() =~= tail);
        }
        let line_len = line_end - start;
        if line_len >= prefix.len() && same_bytes(
            vstd::slice::slice_subrange(report, start, start + prefix.len()),
            prefix.as_slice(),
        ) {
            proof {
                assert(line.subrange(0, host_prefix().len() as int) =~= report@.subrange(start as int, start + prefix@.len()));
                assert(line.subrange(host_prefix().len() as int, line.len() as int) =~= report@.subrange(start + prefix@.len(), line_end as int));
            }
            return Some(vstd::slice::slice_to_vec(vstd::slice::slice_subrange(report, start + prefix.len(), line_end)));
        }
        proof {
            if line.len() >= host_prefix().len() {
                assert(line.subrange(0, host_prefix().len() as int) =~= report@.subrange(start as int, start + prefix@.len()));
            }
            if end < report.len() {
                assert(rest.subrange(end - start + 1, rest.len() as int) =~= report@.subrange(end + 1, report@.len() as int));
            }
        }
        if end >= report.len() {
            proof {
                assert(lines_of(rest).drop_first() =~= Seq::<Seq<u8>>::empty());
                assert(host_in(lines_of(rest)) == host_in(lines_of(rest).drop_first()));
                assert(host_in(Seq::<Seq<u8>>::empty()) is None);
            }
            return None;
        }
        start = end + 1;
    }
    proof {
        assert(report@.subrange(start as int, report@.len() as int) =~= Seq::<u8>::empty());
    }
    None
}

} // verus!
