use vstd::prelude::*;

use crate::config::Config;
use crate::config::default_config;
use crate::pass::blank_line::collapse_blank_lines;
use crate::pass::blank_line::collapsed_blank_lines;
use crate::pass::blank_line::ensure_trailing_newline;
use crate::pass::blank_line::with_trailing_newline;
use crate::pass::chain::chains_reformatted;
use crate::pass::chain::reformat_chains;
use crate::pass::derive::derives_sorted;
use crate::pass::derive::sort_derive_args;
use crate::pass::doc_comment::doc_comments_formatted;
use crate::pass::doc_comment::format_doc_comments;
use crate::pass::import::hoist_late_imports;
use crate::pass::import::imports_sorted;
use crate::pass::import::late_imports_hoisted;
use crate::pass::import::sort_and_group_imports;
use crate::pass::line_length::braces_collapsed;
use crate::pass::line_length::collapse_opening_braces;
use crate::pass::line_length::expand_long_inline_blocks;
use crate::pass::line_length::long_blocks_expanded;
use crate::pass::section_header::format_section_headers;
use crate::pass::section_header::section_headers_formatted;
use crate::pass::whitespace::format_whitespace;
use crate::pass::whitespace::whitespace_formatted;
use crate::text::chars_eq;
use crate::text::chars_of;
use crate::text::leading_ws;
use crate::text::leading_ws_vec;
use crate::text::string_from_chars;

verus! {

// =====================
// === format_source ===
// =====================

/// One round of the line-length loop: expand over-long inline blocks (when enabled), then
/// re-indent; the rounds stop once re-indenting changes nothing, or when `fuel` runs out.
pub open spec fn settle(s: Seq<char>, c: Config, fuel: nat) -> Seq<char>
    decreases fuel,
{
    if fuel == 0 {
        s
    } else {
        let expanded = if c.enforce_line_length {
            long_blocks_expanded(s, c.max_line_length as nat)
        } else {
            s
        };
        let next = whitespace_formatted(expanded, c.indent_width as nat);
        if next == expanded {
            expanded
        } else {
            settle(next, c, (fuel - 1) as nat)
        }
    }
}

/// The formatter's pipeline: derives, imports, whitespace, chains, the line-length loop,
/// braces, section headers, blank lines, doc comments and the trailing newline, each pass
/// run only when its option is set.
pub open spec fn formatted(src: Seq<char>, c: Config) -> Seq<char> {
    let max = c.max_line_length as nat;
    let iw = c.indent_width as nat;
    let s1 = if c.sort_derives {
        derives_sorted(src)
    } else {
        src
    };
    let s2 = if c.hoist_imports {
        late_imports_hoisted(s1)
    } else {
        s1
    };
    let s3 = if c.sort_imports {
        imports_sorted(s2)
    } else {
        s2
    };
    let s4 = whitespace_formatted(s3, iw);
    let s5 = if c.reformat_chains {
        chains_reformatted(s4, max, iw)
    } else {
        s4
    };
    let s6 = settle(s5, c, usize::MAX as nat);
    let s7 = if c.enforce_line_length {
        braces_collapsed(s6, max)
    } else {
        s6
    };
    let s8 = if c.format_section_headers {
        section_headers_formatted(s7)
    } else {
        s7
    };
    let s9 = if c.collapse_blank_lines {
        collapsed_blank_lines(s8)
    } else {
        s8
    };
    let s10 = if c.reflow_doc_comments {
        doc_comments_formatted(s9, max)
    } else {
        s9
    };
    with_trailing_newline(s10)
}

/// Formats Rust source code using default configuration.
pub fn format_source(source: &str) -> (r: String)
    ensures
        r@ == formatted(source@, default_config()),
{
    let c = Config::default();
    format_source_with_config(source, &c)
}

/// Formats Rust source code by running all enabled formatting passes in sequence.
/// The pipeline is: derives -> imports -> whitespace -> chains -> line-length -> whitespace
/// (fixpoint loop) -> section headers -> blank lines -> doc comments -> trailing newline.
pub fn format_source_with_config(source: &str, config: &Config) -> (r: String)
    requires
        config.indent_width > 0,
    ensures
        r@ == formatted(source@, *config),
{
    let src = chars_of(source);
    let mut s = if config.sort_derives {
        sort_derive_args(&src)
    } else {
        src
    };
    if config.hoist_imports {
        s = hoist_late_imports(&s);
    }
    if config.sort_imports {
        s = sort_and_group_imports(&s);
    }
    s = format_whitespace(&s, config);
    if config.reformat_chains {
        s = reformat_chains(&s, config);
    }
    let mut fuel: usize = usize::MAX;
    let ghost s5 = s@;
    loop
        invariant_except_break
            config.indent_width > 0,
            settle(s@, *config, fuel as nat) == settle(s5, *config, usize::MAX as nat),
        ensures
            s@ == settle(s5, *config, usize::MAX as nat),
        decreases fuel,
    {
        if fuel == 0 {
            break ;
        }
        if config.enforce_line_length {
            s = expand_long_inline_blocks(&s, config);
        }
        let next = format_whitespace(&s, config);
        if chars_eq(next.as_slice(), s.as_slice()) {
            break ;
        }
        s = next;
        fuel = fuel - 1;
    }
    if config.enforce_line_length {
        s = collapse_opening_braces(&s, config);
    }
    if config.format_section_headers {
        s = format_section_headers(&s);
    }
    if config.collapse_blank_lines {
        s = collapse_blank_lines(&s);
    }
    if config.reflow_doc_comments {
        s = format_doc_comments(&s, config);
    }
    let s = ensure_trailing_newline(s);
    string_from_chars(s.as_slice())
}

// ==========================
// === leading_whitespace ===
// ==========================

/// Returns the leading whitespace prefix of a line.
pub fn leading_whitespace(line: &Vec<char>) -> (r: Vec<char>)
    ensures
        r@ == leading_ws(line@),
{
    leading_ws_vec(line)
}

// ============
// === Laws ===
// ============

/// The text after `f` rounds of the line-length loop, had none of them reached a fixpoint.
pub open spec fn loop_rounds(s: Seq<char>, c: Config, f: nat) -> Seq<char>
    decreases f,
{
    if f == 0 {
        s
    } else {
        let expanded = if c.enforce_line_length {
            long_blocks_expanded(s, c.max_line_length as nat)
        } else {
            s
        };
        loop_rounds(whitespace_formatted(expanded, c.indent_width as nat), c, (f - 1) as nat)
    }
}

/// The line-length loop ends on a text that the whitespace pass leaves unchanged, unless it
/// ran all its rounds without reaching one.
pub proof fn law_loop_ends_at_fixpoint(s: Seq<char>, c: Config, f: nat)
    ensures
        whitespace_formatted(settle(s, c, f), c.indent_width as nat) == settle(s, c, f)
            || settle(s, c, f) == loop_rounds(s, c, f),
    decreases f,
{
    if f > 0 {
        let expanded = if c.enforce_line_length {
            long_blocks_expanded(s, c.max_line_length as nat)
        } else {
            s
        };
        let next = whitespace_formatted(expanded, c.indent_width as nat);
        if next != expanded {
            law_loop_ends_at_fixpoint(next, c, (f - 1) as nat);
        }
    }
}

/// Whatever the options, the formatter's output ends with a line break.
pub proof fn law_output_ends_with_newline(src: Seq<char>, c: Config)
    ensures
        formatted(src, c).len() > 0,
        formatted(src, c).last() == '\n',
{
}

} // verus!
