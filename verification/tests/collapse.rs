use dtrace_collapse::chunk::{chunk_end, is_end_of_stack, Chunker};
use dtrace_collapse::folder::{skip_preamble, sniff, CollapseError, Folder, Options, Preamble};
use dtrace_collapse::frame::expand_inlines;
use dtrace_collapse::occurrences::Occurrences;
use dtrace_collapse::symbol::fix_partially_demangled_rust_symbol;
use dtrace_collapse::text::{parse_unsigned, trim};

fn sorted_lines(output: &[u8]) -> Vec<String> {
    let text = String::from_utf8(output.to_vec()).unwrap();
    let mut lines: Vec<String> = text.lines().map(|l| l.to_string()).collect();
    lines.sort();
    lines
}

fn collapse_with(options: Options, nstacks: usize, input: &[u8]) -> Result<Vec<u8>, CollapseError> {
    let mut folder = Folder::from(options);
    folder.set_nstacks_per_job(nstacks);
    let mut out = Vec::new();
    folder.collapse(input, &mut out)?;
    Ok(out)
}

fn inputs() -> Vec<Vec<u8>> {
    let plain = "CPU     ID                    FUNCTION:NAME\n  0  64091                        :tick-60s\n\n\n              genunix`kmem_cpucache_magazine_alloc\n              genunix`kmem_cache_free+0x4c\n              genunix`dblk_lastfree_oversize+0x70\n                1\n\n              genunix`cv_broadcast+0x1\n              unix`sys_syscall+0x10e\n                3\n\n              genunix`kmem_cpucache_magazine_alloc\n              genunix`kmem_cache_free+0x4c\n              genunix`dblk_lastfree_oversize+0x7f\n                41\n\n              unix`tsc_gethrtimeunscaled+0x21\n              genunix`gethrtime_unscaled+0xa\n              genunix`syscall_mstate+0x5d\n              unix`sys_syscall+0x10e\n                1\n\n              genunix`cv_broadcast+0x1\n              unix`sys_syscall+0x10e\n                7\n";
    let hex = "\n              0x10f3d8\n              0x10f3f1\n              libc.so.1`_lwp_start\n                2\n\n              0xfeedface\n              libc.so.1`_lwp_start\n                5\n              0x10f3d8\n              0x10f3f1\n              libc.so.1`_lwp_start\n                9\n";
    let java = "header line\n\n              libjvm.so`jni_GetObjectField+0x10\n              Lsun/nio/ch/Net;->poll(Ljava/io/FileDescriptor;IJ)I->Lsun/nio/ch/Net;->read*+0x1a\n              call_stub->Ljava/lang/Thread;->run*\n              libjvm.so`JavaCalls::call_helper(JavaValue*, methodHandle*)+0x2f4\n                12\n\n              libjvm.so`JavaCalls::call_helper(JavaValue*, methodHandle*)+0x2f4\n                4\n";
    let only_header = "CPU     ID                    FUNCTION:NAME\n  0  64091                        :tick-60s\n";
    let scope = "\n              libfoo.so`Foo::bar+0x12\n              libfoo.so`Foo::Bar::baz<int>(char const*)+0x3\n              libc.so.1`_lwp_start\n                6\n\n              libfoo.so`Foo::bar+0x44\n              libc.so.1`_lwp_start\n                1\n";
    let rust = "\n              app`_$LT$grep_searcher..searcher..glue..ReadByLine$LT$$u27$s$C$$u20$M$C$$u20$R$C$$u20$S$GT$$GT$::run::h30ecedc997ad7e32+0x5\n              app`_ZN3foo3barE+0x8\n              app`main+0x1\n                8\n";
    vec![
        plain.as_bytes().to_vec(),
        hex.as_bytes().to_vec(),
        java.as_bytes().to_vec(),
        only_header.as_bytes().to_vec(),
        scope.as_bytes().to_vec(),
        rust.as_bytes().to_vec(),
    ]
}

#[test]
fn cpp_test() {
    let probe = "TestClass::TestClass2(const char*)[__1cJTestClass2t6Mpkc_v_]";
    assert_eq!("TestClass::TestClass2".as_bytes(), Folder::uncpp(probe.as_bytes()));

    let probe = "TestClass::TestClass2::TestClass3(const char*)[__1cJTestClass2t6Mpkc_v_]";
    assert_eq!(
        "TestClass::TestClass2::TestClass3".as_bytes(),
        Folder::uncpp(probe.as_bytes())
    );

    let probe = "TestClass::TestClass2<blargh>(const char*)[__1cJTestClass2t6Mpkc_v_]";
    assert_eq!(
        "TestClass::TestClass2<blargh>".as_bytes(),
        Folder::uncpp(probe.as_bytes())
    );

    let probe = "TestClass::TestClass2::TestClass3<blargh>(const char*)[__1cJTestClass2t6Mpkc_v_]";
    assert_eq!(
        "TestClass::TestClass2::TestClass3<blargh>".as_bytes(),
        Folder::uncpp(probe.as_bytes())
    );
}

#[test]
fn test_collapse_multi_dtrace() {
    let mut folder = Folder::default();
    for input in inputs() {
        folder.set_nthreads(1);
        let mut expected = Vec::new();
        folder.collapse(&input, &mut expected).unwrap();
        for n in 2..=16 {
            folder.set_nthreads(n);
            let mut actual = Vec::new();
            folder.collapse(&input, &mut actual).unwrap();
            assert_eq!(sorted_lines(&actual), sorted_lines(&expected));
        }
    }
}

#[test]
fn test_collapse_multi_dtrace_stop_early() {
    let invalid_utf8: [u8; 4] = [0xf0, 0x28, 0x8c, 0xbc];
    let mut invalid_stack = b"genunix`cv_broadcast+0x1".to_vec();
    invalid_stack.extend_from_slice(&invalid_utf8);
    invalid_stack.extend_from_slice(b"\n1\n\n");
    let valid_stack = "genunix`cv_broadcast+0x1\n1\n\n";

    let mut input = Vec::new();
    for _ in 0..100 {
        input.extend_from_slice(valid_stack.as_bytes());
    }
    input.extend_from_slice(&invalid_stack);
    for _ in 0..(1024 * 1024 * 10) {
        input.extend_from_slice(valid_stack.as_bytes());
    }

    let mut folder = Folder::default();
    folder.set_nthreads(12);
    folder.set_nstacks_per_job(1);
    let mut sink = Vec::new();
    match folder.collapse(&input[..], &mut sink) {
        Ok(_) => panic!("collapse should have return error, but instead returned Ok."),
        Err(e) => match e {
            CollapseError::EncodingError => assert_eq!(
                &e.message(),
                "stream did not contain valid UTF-8",
                "error message is incorrect.",
            ),
            k => panic!(
                "collapse should have returned `InvalidData` error but instead returned {:?}",
                k
            ),
        },
    }
}

#[test]
fn chunk_size_does_not_show() {
    for input in inputs() {
        for demangle in [false, true] {
            for includeoffset in [false, true] {
                let single = Options { demangle, includeoffset, nthreads: 1 };
                let expected = sorted_lines(&collapse_with(single, 100, &input).unwrap());
                for nstacks in [1, 2, 3, 7, 500] {
                    let pooled = Options { demangle, includeoffset, nthreads: 4 };
                    let actual = sorted_lines(&collapse_with(pooled, nstacks, &input).unwrap());
                    assert_eq!(actual, expected);
                }
            }
        }
    }
}

#[test]
fn output_is_the_same_to_the_byte() {
    for input in inputs() {
        let single = Options { demangle: false, includeoffset: true, nthreads: 1 };
        let expected = collapse_with(single, 100, &input).unwrap();
        for (nthreads, nstacks) in [(2, 1), (3, 2), (16, 5), (7, 1000)] {
            let pooled = Options { demangle: false, includeoffset: true, nthreads };
            assert_eq!(collapse_with(pooled, nstacks, &input).unwrap(), expected);
        }
    }
}

#[test]
fn end_to_end_example() {
    let input = b"header\n\nmod`funcA+0x10\nmod`funcB+0x20\n5\n\nmod`funcA+0x10\n1\n";
    let out = collapse_with(Options::default(), 100, input).unwrap();
    assert_eq!(
        sorted_lines(&out),
        vec!["mod`funcA 1".to_string(), "mod`funcB;mod`funcA 5".to_string()]
    );
    assert_eq!(out, b"mod`funcB;mod`funcA 5\nmod`funcA 1\n".to_vec());
}

#[test]
fn offsets_are_stripped_by_default() {
    let input = b"\nmod`func+0x1a\nmod`func+0x1a\nmod`func+0x1a\n2\n";
    let out = collapse_with(Options::default(), 100, input).unwrap();
    assert_eq!(out, b"mod`func;mod`func;mod`func 2\n".to_vec());
    let (_, _, _, frame) = Folder::remove_offset(b"mod`func+0x1a");
    assert_eq!(frame, b"mod`func");
    let (_, _, _, frame) = Folder::remove_offset(b"a+b+c");
    assert_eq!(frame, b"a+b");
    let (_, _, _, frame) = Folder::remove_offset(b"plain");
    assert_eq!(frame, b"plain");
}

#[test]
fn offsets_are_kept_except_on_the_leaf() {
    let options = Options { demangle: false, includeoffset: true, nthreads: 1 };
    let input = b"\nmod`func+0x1a\nmod`func+0x1a\nmod`func+0x1a\n2\n";
    let out = collapse_with(options, 100, input).unwrap();
    assert_eq!(out, b"mod`func+0x1a;mod`func+0x1a;mod`func 2\n".to_vec());
}

#[test]
fn remove_offset_reports_what_the_line_holds() {
    assert_eq!(Folder::remove_offset(b"a->b"), (true, false, false, &b"a->b"[..]));
    assert_eq!(Folder::remove_offset(b"a::b+1"), (false, true, false, &b"a::b"[..]));
    assert_eq!(Folder::remove_offset(b"a;b"), (false, false, true, &b"a;b"[..]));
    assert_eq!(Folder::remove_offset(b">-:"), (false, false, false, &b">-:"[..]));
    assert_eq!(Folder::remove_offset(b""), (false, false, false, &b""[..]));
    assert_eq!(Folder::remove_offset(b"+"), (false, false, false, &b""[..]));
}

#[test]
fn inline_chain_is_expanded_in_order() {
    let mut folder = Folder::default();
    folder.on_stack_line(b"leaf`x;y");
    folder.on_stack_line(b"m`a->b->c");
    folder.on_stack_line(b"root`r");
    assert_eq!(folder.pending(), 5);
    folder.on_stack_end(3);
    let mut out = Vec::new();
    assert_eq!(folder.occurrences().len(), 1);
    let mut table = Occurrences::new(1);
    table.merge(folder.occurrences());
    table.write_and_clear(&mut out);
    assert_eq!(out, b"root`r;m`a;b_[i];c_[i];leaf`x:y 3\n".to_vec());

    let frames = expand_inlines(b"La;x->Lb;->LLc->", true);
    assert_eq!(
        frames,
        vec![b"a:x".to_vec(), b"b:_[i]".to_vec(), b"c_[i]".to_vec(), b"_[i]".to_vec()]
    );
    let frames = expand_inlines(b"La;x->b", false);
    assert_eq!(frames, vec![b"a;x".to_vec(), b"b_[i]".to_vec()]);
    let frames = expand_inlines(b"", false);
    assert_eq!(frames, vec![b"".to_vec()]);
}

#[test]
fn signature_is_trimmed() {
    assert_eq!(Folder::uncpp(b"Foo::Bar(int)"), b"Foo::Bar");
    assert_eq!(Folder::uncpp(b"Foo::Bar<T>(int)"), b"Foo::Bar<T>");
    assert_eq!(Folder::uncpp(b"Foo::Bar::Baz<T>(int)"), b"Foo::Bar::Baz<T>");
    assert_eq!(Folder::uncpp(b"Foo::Bar"), b"Foo::Bar");
    assert_eq!(Folder::uncpp(b"foo(int)"), b"foo(int)");
    assert_eq!(Folder::uncpp(b"f(int)::g"), b"f(int)::g");
    assert_eq!(Folder::uncpp(b"a::<"), b"a::");
    assert_eq!(Folder::uncpp(b"::"), b"::");
    assert_eq!(Folder::uncpp(b""), b"");
}

#[test]
fn truncated_input_is_an_error() {
    let input = b"header\n\nmod`func+0x1\n";
    let mut folder = Folder::default();
    let mut out = Vec::new();
    let r = folder.collapse(input, &mut out);
    assert_eq!(r, Err(CollapseError::TruncatedRecord));
    assert_eq!(
        CollapseError::TruncatedRecord.message(),
        "Input data ends in the middle of a stack."
    );
    assert!(out.is_empty());

    let pooled = Options { demangle: false, includeoffset: false, nthreads: 3 };
    assert_eq!(collapse_with(pooled, 1, input), Err(CollapseError::TruncatedRecord));
}

#[test]
fn invalid_utf8_is_an_error() {
    let mut folder = Folder::default();
    assert_eq!(folder.consume_line(b"mod`f\xff\n"), Err(CollapseError::EncodingError));
    assert_eq!(folder.pending(), 0);
    assert_eq!(folder.consume_line(b"mod`f\xc3\xa9\n"), Ok(()));
    assert_eq!(folder.pending(), 1);
    assert_eq!(collapse_with(Options::default(), 100, b"he\xffader\n\n"), Err(CollapseError::EncodingError));
    assert_eq!(skip_preamble(b"he\xffader\n\n"), Preamble::Invalid);
    assert_eq!(skip_preamble(b"header\n \t\nx\n"), Preamble::Ends(10));
    assert_eq!(skip_preamble(b"header\nmore"), Preamble::Missing);
}

#[test]
fn input_without_blank_line_is_empty() {
    let out = collapse_with(Options::default(), 100, b"only\nheader\nlines\n").unwrap();
    assert!(out.is_empty());
    let out = collapse_with(Options::default(), 100, b"").unwrap();
    assert!(out.is_empty());
}

#[test]
fn folder_can_be_used_again() {
    let first = b"\nmod`a\n4\n";
    let second = b"\nmod`b\nmod`c\n6\n";
    for nthreads in [1, 5] {
        let mut folder = Folder::from(Options { demangle: false, includeoffset: false, nthreads });
        let mut out = Vec::new();
        folder.collapse(first, &mut out).unwrap();
        assert_eq!(out, b"mod`a 4\n".to_vec());
        let mut out = Vec::new();
        folder.collapse(second, &mut out).unwrap();
        assert_eq!(out, b"mod`c;mod`b 6\n".to_vec());
        assert_eq!(folder.occurrences().len(), 0);
    }
}

#[test]
fn options_are_normalized() {
    let folder = Folder::from(Options { demangle: true, includeoffset: true, nthreads: 0 });
    assert_eq!(folder.opt().nthreads, 1);
    assert!(folder.opt().demangle);
    assert!(folder.opt().includeoffset);
    assert!(!folder.occurrences().is_concurrent());
    assert_eq!(folder.nstacks_per_job(), 100);
    let mut folder = Folder::default();
    assert_eq!(folder.opt().nthreads, 1);
    assert!(!folder.opt().demangle);
    assert!(!folder.opt().includeoffset);
    folder.set_nthreads(8);
    assert!(folder.occurrences().is_concurrent());
    assert_eq!(folder.opt().nthreads, 8);
    folder.set_nthreads(0);
    assert_eq!(folder.opt().nthreads, 1);
    let worker = folder.worker();
    assert_eq!(worker.opt().nthreads, 1);
    assert_eq!(worker.pending(), 0);
}

#[test]
fn end_of_stack_is_found_on_bytes() {
    assert!(is_end_of_stack(b"5"));
    assert!(is_end_of_stack(b"   123  \n"));
    assert!(is_end_of_stack(b"\t42\r\n"));
    assert!(is_end_of_stack(b"0"));
    assert!(!is_end_of_stack(b""));
    assert!(!is_end_of_stack(b"\n"));
    assert!(!is_end_of_stack(b"  \n"));
    assert!(!is_end_of_stack(b" \t\r\n"));
    assert!(is_end_of_stack(b"99999999999999999999999999999999\n"));
    assert!(is_end_of_stack(b"\xa07\x85"));
    assert!(!is_end_of_stack(b"1 2"));
    assert!(!is_end_of_stack(b"+5"));
    assert!(!is_end_of_stack(b"12a"));
    assert!(!is_end_of_stack(b"a12"));
    assert!(!is_end_of_stack(b"mod`func+0x1\n"));
    assert!(!is_end_of_stack(b"5\xc2"));
}

#[test]
fn numerals_are_digits_and_nothing_else() {
    assert_eq!(parse_unsigned(b"0", false), Some(0));
    assert_eq!(parse_unsigned(b"0042", false), Some(42));
    assert_eq!(parse_unsigned(b"17", false), Some(17));
    assert_eq!(parse_unsigned(b"+17", false), None);
    assert_eq!(parse_unsigned(b"+0", false), None);
    assert_eq!(parse_unsigned(b"+1f", true), None);
    assert_eq!(parse_unsigned(b"", false), None);
    assert_eq!(parse_unsigned(b"", true), None);
    assert_eq!(parse_unsigned(b"+", false), None);
    assert_eq!(parse_unsigned(b"-1", false), None);
    assert_eq!(parse_unsigned(b"1f", false), None);
    assert_eq!(parse_unsigned(b"1f", true), Some(31));
    assert_eq!(parse_unsigned(b"FFff", true), Some(65535));
    assert_eq!(parse_unsigned(b"g", true), None);
    let max = usize::MAX.to_string();
    assert_eq!(parse_unsigned(max.as_bytes(), false), Some(usize::MAX));
    let over = format!("{}0", usize::MAX);
    assert_eq!(parse_unsigned(over.as_bytes(), false), None);
    for text in ["18446744073709551616", "4294967296", "00", "1_0", " 1", "7", "123456789"] {
        assert_eq!(parse_unsigned(text.as_bytes(), false), text.parse::<usize>().ok());
        assert_eq!(parse_unsigned(text.as_bytes(), true), usize::from_str_radix(text, 16).ok());
    }
}

#[test]
fn white_space_is_trimmed_as_text() {
    assert_eq!(trim(b"  a b \t\r\n"), b"a b");
    assert_eq!(trim(b""), b"");
    assert_eq!(trim(b" \n"), b"");
    for text in [
        "\u{a0}x\u{85}",
        "\u{1680}\u{2000}x y\u{200a}\u{2028}\u{2029}",
        "\u{202f}\u{205f}\u{3000}z\u{3000}",
        "\u{200b}x\u{200b}",
        "\u{e9} \u{e9}",
        "\u{0b}\u{0c}q\u{1c}",
    ] {
        assert_eq!(trim(text.as_bytes()), text.trim().as_bytes());
    }
}

#[test]
fn a_count_too_large_is_a_frame() {
    let input = b"\n99999999999999999999999999\nmod`f\n3\n";
    let out = collapse_with(Options::default(), 100, input).unwrap();
    assert_eq!(out, b"mod`f;99999999999999999999999999 3\n".to_vec());
}

#[test]
fn a_plus_sign_and_digits_are_a_frame_line() {
    let mut folder = Folder::from(Options { demangle: false, includeoffset: false, nthreads: 1 });
    let r = folder.collapse_single_threaded(b"a`f\n+5\n");
    assert_eq!(r, Err(CollapseError::TruncatedRecord));
    assert_eq!(folder.occurrences().len(), 0);
    assert_eq!(folder.pending(), 2);

    let out = collapse_with(Options::default(), 100, b"header\n\na`f\n+5\n3\n").unwrap();
    assert_eq!(out, b"-;a`f 3\n".to_vec());
    let pooled = Options { demangle: false, includeoffset: false, nthreads: 2 };
    let out = collapse_with(pooled, 1, b"header\n\na`f\n+5\n3\n").unwrap();
    assert_eq!(out, b"-;a`f 3\n".to_vec());

    assert_eq!(sniff(b"\n+5\n"), Some(false));
    assert_eq!(sniff(b"\nmod`f\n+5\n"), Some(false));
    assert_eq!(sniff(b"\n0x+1f\n3\n"), Some(false));
    assert_eq!(sniff(b"\n0x\n3\n"), Some(false));
    assert_eq!(sniff(b"\n0x1F\n3\n"), Some(true));
}

#[test]
fn a_blank_line_closes_no_sample() {
    let input = b"\na`f\n\nb`g\n1\n";
    let expected = b"b`g;a`f 1\n".to_vec();
    assert_eq!(collapse_with(Options::default(), 100, input).unwrap(), expected);
    for nthreads in [2, 3] {
        for nstacks in [1, 2] {
            let pooled = Options { demangle: false, includeoffset: false, nthreads };
            assert_eq!(collapse_with(pooled, nstacks, input).unwrap(), expected);
        }
    }
    let mut folder = Folder::from(Options { demangle: false, includeoffset: false, nthreads: 2 });
    folder.set_nstacks_per_job(1);
    assert_eq!(folder.collapse_multi_threaded(b"a`f\n\nb`g\n1\n"), Ok(()));
    assert_eq!(folder.occurrences().count_of(b"b`g;a`f"), Some(1));
    assert_eq!(folder.occurrences().len(), 1);
}

#[test]
fn the_length_of_the_folded_stack_is_estimated() {
    let mut folder = Folder::default();
    assert_eq!(folder.stack_str_size(), 0);
    folder.on_stack_line(b"mod`func+0x1");
    assert_eq!(folder.stack_str_size(), 9);
    folder.on_stack_line(b"a`b");
    assert_eq!(folder.stack_str_size(), 13);
    folder.on_stack_line(b"x->y");
    assert_eq!(folder.stack_str_size(), 13 + 2 + 6);
    assert_eq!(folder.finish(), Err(CollapseError::TruncatedRecord));
    folder.on_stack_end(1);
    assert_eq!(folder.stack_str_size(), 0);
    assert_eq!(folder.finish(), Ok(()));
}

#[test]
fn an_empty_frame_is_a_dash() {
    let input = b"\n+0x10\nmod`f\n1\n";
    let out = collapse_with(Options::default(), 100, input).unwrap();
    assert_eq!(out, b"mod`f;- 1\n".to_vec());
}

#[test]
fn format_is_sniffed() {
    let mut folder = Folder::default();
    assert_eq!(folder.is_applicable("header\n\nmod`func+0x1\n  3\n"), Some(true));
    assert_eq!(folder.is_applicable("\n0x10f3d8\n3\n"), Some(true));
    assert_eq!(folder.is_applicable("\n0xzz\n3\n"), Some(false));
    assert_eq!(folder.is_applicable("\n3\n"), Some(false));
    assert_eq!(folder.is_applicable("header\n\nnot a stack line\n3\n"), Some(false));
    assert_eq!(folder.is_applicable("header\n\nmod`func+0x1\n"), None);
    assert_eq!(folder.is_applicable("header\nmore header\n"), None);
    assert_eq!(folder.is_applicable(""), None);
    assert_eq!(folder.is_applicable("3\nfoo\n\nmod`f\n\n1\n"), Some(true));
    assert_eq!(sniff(b"\nmod`f\xff\n1\n"), Some(false));
    assert_eq!(sniff(b"\nmod`f\n1"), Some(true));
}

#[test]
fn rust_names_are_repaired() {
    let name = b"_$LT$grep_searcher..searcher..glue..ReadByLine$LT$$u27$s$C$$u20$M$C$$u20$R$C$$u20$S$GT$$GT$::run::h30ecedc997ad7e32";
    assert_eq!(
        fix_partially_demangled_rust_symbol(name),
        Some(b"<grep_searcher::searcher::glue::ReadByLine<'s, M, R, S>>::run".to_vec())
    );
    assert_eq!(fix_partially_demangled_rust_symbol(b"main"), None);
    assert_eq!(fix_partially_demangled_rust_symbol(b"foo::h30ecedc997ad7e3g"), None);
    assert_eq!(fix_partially_demangled_rust_symbol(b"foo::g30ecedc997ad7e32"), None);
    assert_eq!(
        fix_partially_demangled_rust_symbol(b"a.b$SP$$BP$$RF$$LP$$RP$$u7e$$u3d$$u5b$$u5d$$u7b$$u7d$$u3b$$u2b$$u21$$u22$::h0123456789ABCDEF"),
        Some(b"a.b@*&()~=[]{};+!\"".to_vec())
    );
    assert_eq!(
        fix_partially_demangled_rust_symbol(b"x$zz$y..z::h0123456789abcdef"),
        Some(b"x$zz$y..z".to_vec())
    );
    let folder = Folder::default();
    assert_eq!(
        folder.fix_rust_symbol(b"app`std..rt..lang_start::h0123456789abcdef"),
        b"app`std::rt::lang_start".to_vec()
    );
    assert_eq!(folder.fix_rust_symbol(b"app`main"), b"app`main".to_vec());
    assert_eq!(folder.fix_rust_symbol(b"no backtick"), b"no backtick".to_vec());
    let keeping = Folder::from(Options { demangle: false, includeoffset: true, nthreads: 1 });
    assert_eq!(
        keeping.fix_rust_symbol(b"app`std..rt..lang_start::h0123456789abcdef +0x1f"),
        b"app`std::rt::lang_start+0x1f".to_vec()
    );
    assert_eq!(keeping.fix_rust_symbol(b"app`main +0x1f"), b"app`main +0x1f".to_vec());
}

#[test]
fn names_are_demangled() {
    let folder = Folder::from(Options { demangle: true, includeoffset: false, nthreads: 1 });
    assert_eq!(folder.demangle(b"app`_ZN3foo3barE"), b"app`foo::bar".to_vec());
    assert_eq!(folder.demangle(b"app`main"), b"app`main".to_vec());
    assert_eq!(folder.demangle(b"_ZN3foo3barE"), b"_ZN3foo3barE".to_vec());
    let out = collapse_with(
        Options { demangle: true, includeoffset: false, nthreads: 1 },
        100,
        b"\napp`_ZN3foo3barE+0x8\napp`main+0x1\n2\n",
    )
    .unwrap();
    assert_eq!(out, b"app`main;app`foo::bar 2\n".to_vec());
    let keeping = Folder::from(Options { demangle: true, includeoffset: true, nthreads: 1 });
    assert_eq!(keeping.demangle(b"app`_ZN3foo3barE+0x8"), b"app`foo::bar+0x8".to_vec());
    assert_eq!(keeping.function_part(b"app`name  +0x8"), Some(&b"name"[..]));
    assert_eq!(keeping.function_part(b"name+0x8"), None);
    assert_eq!(
        keeping.transform_function_name(b"app`name  +0x8", Some(b"other".to_vec())),
        b"app`other+0x8".to_vec()
    );
    assert_eq!(
        keeping.transform_function_name(b"app`name  +0x8", None),
        b"app`name  +0x8".to_vec()
    );
}

#[test]
fn occurrences_count_and_merge() {
    let mut table = Occurrences::new(1);
    assert!(!table.is_concurrent());
    assert!(Occurrences::new(2).is_concurrent());
    table.add(b"a;b".to_vec(), 2);
    table.add(b"c".to_vec(), 1);
    table.add(b"a;b".to_vec(), 40);
    table.add(b"".to_vec(), 0);
    assert_eq!(table.len(), 3);
    assert_eq!(table.count_of(b"a;b"), Some(42));
    assert_eq!(table.count_of(b"c"), Some(1));
    assert_eq!(table.count_of(b""), Some(0));
    assert_eq!(table.count_of(b"d"), None);

    let mut other = Occurrences::new(1);
    other.add(b"d".to_vec(), usize::MAX);
    other.add(b"c".to_vec(), 9);
    other.add(b"d".to_vec(), 3);
    table.merge(&other);
    assert_eq!(table.count_of(b"c"), Some(10));
    assert_eq!(table.count_of(b"d"), Some(2));

    let mut out = b"# ".to_vec();
    table.write_and_clear(&mut out);
    assert_eq!(out, b"# a;b 42\nc 10\n 0\nd 2\n".to_vec());
    assert_eq!(table.len(), 0);
    assert_eq!(table.count_of(b"c"), None);
}

#[test]
fn occurrences_hold_many_stacks() {
    let mut table = Occurrences::new(1);
    for round in 0..3 {
        for i in 0..5000usize {
            table.add(format!("frame{};leaf{}", i % 37, i).into_bytes(), i + round);
        }
    }
    assert_eq!(table.len(), 5000);
    for i in (0..5000usize).step_by(97) {
        let key = format!("frame{};leaf{}", i % 37, i);
        assert_eq!(table.count_of(key.as_bytes()), Some(3 * i + 3));
    }
    let mut out = Vec::new();
    table.write_and_clear(&mut out);
    let lines = sorted_lines(&out);
    assert_eq!(lines.len(), 5000);
    assert!(out.starts_with(b"frame0;leaf0 3\nframe1;leaf1 6\n"));
}

#[test]
fn chunks_hold_whole_samples() {
    let input = b"a`b\n1\n\nc`d\ne`f\n2\ng`h\n3\nrest";
    assert_eq!(chunk_end(input, 0, 1), 6);
    assert_eq!(chunk_end(input, 6, 1), 17);
    assert_eq!(chunk_end(input, 7, 1), 17);
    assert_eq!(chunk_end(input, 0, 2), 17);
    assert_eq!(chunk_end(input, 0, 3), 23);
    assert_eq!(chunk_end(input, 17, 3), input.len());
    assert_eq!(chunk_end(input, input.len(), 3), input.len());

    let mut chunker = Chunker::new(2);
    assert_eq!(chunker.push_line(b"a`b\n"), None);
    assert_eq!(chunker.push_line(b"1\n"), None);
    assert_eq!(chunker.push_line(b"\n"), None);
    assert_eq!(chunker.push_line(b"c`d\n"), None);
    assert_eq!(chunker.push_line(b"2\n"), Some(b"a`b\n1\n\nc`d\n2\n".to_vec()));
    assert_eq!(chunker.push_line(b"e`f\n"), None);
    assert_eq!(chunker.finish(), b"e`f\n".to_vec());
    assert_eq!(chunker.finish(), b"".to_vec());
}

#[test]
fn workers_can_be_merged_in_any_order() {
    let input = inputs().remove(0);
    let body_start = match skip_preamble(&input) {
        Preamble::Ends(n) => n,
        other => panic!("no preamble: {:?}", other),
    };
    let body = &input[body_start..];
    let main = Folder::from(Options { demangle: false, includeoffset: false, nthreads: 3 });
    let mut chunks = Vec::new();
    let mut pos = 0;
    while pos < body.len() {
        let end = chunk_end(body, pos, 1);
        chunks.push(&body[pos..end]);
        pos = end;
    }
    let mut tables = Vec::new();
    for chunk in &chunks {
        let mut worker = main.worker();
        worker.collapse_single_threaded(chunk).unwrap();
        let mut table = Occurrences::new(3);
        table.merge(worker.occurrences());
        tables.push(table);
    }
    let mut forward = Folder::from(main.opt());
    for table in tables.iter() {
        forward.absorb(table);
    }
    let mut backward = Folder::from(main.opt());
    for table in tables.iter().rev() {
        backward.absorb(table);
    }
    let mut whole = Folder::from(Options::default());
    whole.collapse_single_threaded(body).unwrap();
    let render = |folder: &Folder| {
        let mut table = Occurrences::new(1);
        table.merge(folder.occurrences());
        let mut out = Vec::new();
        table.write_and_clear(&mut out);
        sorted_lines(&out)
    };
    assert_eq!(render(&forward), render(&whole));
    assert_eq!(render(&backward), render(&whole));
    assert_eq!(render(&whole).len(), 3);
    assert!(render(&whole).contains(&"unix`sys_syscall;genunix`cv_broadcast 10".to_string()));
}
