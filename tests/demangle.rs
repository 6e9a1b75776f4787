use ast_demangle::{
    alphanumeric0, parse_symbol, BasicType, Const, GenericArg, Identifier, IndexedStr, Name, Path, Symbol, Type,
};
use ast_demangle::grammar::{parse_path, parse_type};
use ast_demangle::parsers::Context;
use std::rc::Rc;

fn ident(disambiguator: u64, name: &str) -> Identifier<'_> {
    Identifier { disambiguator, name: Name::Borrowed(name) }
}

fn generic_args<'a>(symbol: &Symbol<'a>) -> Vec<GenericArg<'a>> {
    match &*symbol.path {
        Path::Generic { generic_args, .. } => generic_args.clone(),
        other => panic!("not a generic path: {:?}", other),
    }
}

fn single_const<'a>(mangled: &'a str) -> Option<Const<'a>> {
    let (symbol, suffix) = Symbol::parse_from_str(mangled).ok()?;
    assert_eq!(suffix, "");
    match &generic_args(&symbol)[..] {
        [GenericArg::Const(c)] => Some((**c).clone()),
        other => panic!("unexpected arguments: {:?}", other),
    }
}

#[test]
fn nested_path_with_llvm_suffix() {
    let (symbol, suffix) =
        Symbol::parse_from_str("_RNvNtCs6GSVXm7oiwY_5regex4utf811decode_utf8.llvm.1119170478327948870").unwrap();
    assert_eq!(suffix, ".llvm.1119170478327948870");
    let expected = Symbol {
        version: None,
        path: Rc::new(Path::Nested {
            namespace: b'v',
            path: Rc::new(Path::Nested {
                namespace: b't',
                path: Rc::new(Path::CrateRoot(ident(0x4df1_4705_8689_a776, "regex"))),
                name: ident(0, "utf8"),
            }),
            name: ident(0, "decode_utf8"),
        }),
        instantiating_crate: None,
    };
    assert_eq!(symbol, expected);
}

#[test]
fn crate_root_only() {
    let (symbol, suffix) = Symbol::parse_from_str("_RC5regex").unwrap();
    assert_eq!(suffix, "");
    assert_eq!(
        symbol,
        Symbol { version: None, path: Rc::new(Path::CrateRoot(ident(0, "regex"))), instantiating_crate: None }
    );
}

fn std_vec(name: &str) -> Path<'_> {
    Path::Nested {
        namespace: b'v',
        path: Rc::new(Path::Nested {
            namespace: b't',
            path: Rc::new(Path::CrateRoot(ident(0, "std"))),
            name: ident(0, "vec"),
        }),
        name: ident(0, name),
    }
}

#[test]
fn generic_path_with_basic_type() {
    let (symbol, suffix) = Symbol::parse_from_str("_RINvNtC3std3vec9from_elemhE").unwrap();
    assert_eq!(suffix, "");
    match &*symbol.path {
        Path::Generic { path, generic_args } => {
            assert_eq!(**path, std_vec("from_elem"));
            assert_eq!(generic_args, &vec![GenericArg::Type(Rc::new(Type::Basic(BasicType::U8)))]);
        }
        other => panic!("not a generic path: {:?}", other),
    }
}

#[test]
fn identifier_takes_exactly_its_length() {
    let (symbol, suffix) = Symbol::parse_from_str("_RINvNtC3std3vec8from_elemhE").unwrap();
    assert_eq!(suffix, "");
    match &*symbol.path {
        Path::Generic { path, generic_args } => {
            assert_eq!(**path, std_vec("from_ele"));
            assert_eq!(
                generic_args,
                &vec![
                    GenericArg::Type(Rc::new(Type::Basic(BasicType::U32))),
                    GenericArg::Type(Rc::new(Type::Basic(BasicType::U8))),
                ]
            );
        }
        other => panic!("not a generic path: {:?}", other),
    }
}

#[test]
fn leading_digits_are_the_version() {
    let (symbol, suffix) = Symbol::parse_from_str("_R1C5regex").unwrap();
    assert_eq!(suffix, "");
    assert_eq!(symbol.version, Some(1));
    assert_eq!(*symbol.path, Path::CrateRoot(ident(0, "regex")));
}

#[test]
fn back_ref_to_an_offset_without_a_path_is_left_as_suffix() {
    let (symbol, suffix) = Symbol::parse_from_str("_RNvC1a1fB4_").unwrap();
    assert_eq!(suffix, "B4_");
    assert_eq!(symbol.instantiating_crate, None);
    assert_eq!(
        *symbol.path,
        Path::Nested { namespace: b'v', path: Rc::new(Path::CrateRoot(ident(0, "a"))), name: ident(0, "f") }
    );
}

#[test]
fn back_ref_shares_the_recorded_path() {
    let (symbol, suffix) = Symbol::parse_from_str("_RNvC1a1fB1_").unwrap();
    assert_eq!(suffix, "");
    let shared = symbol.instantiating_crate.clone().unwrap();
    match &*symbol.path {
        Path::Nested { path, .. } => assert!(Rc::ptr_eq(path, &shared)),
        other => panic!("not a nested path: {:?}", other),
    }
    assert_eq!(*shared, Path::CrateRoot(ident(0, "a")));
}

#[test]
fn two_back_refs_to_one_offset_are_the_same_node() {
    let (symbol, _) = Symbol::parse_from_str("_RINvC1a1fB2_B2_E").unwrap();
    let args = generic_args(&symbol);
    match (&args[0], &args[1]) {
        (GenericArg::Type(t1), GenericArg::Type(t2)) => {
            match (&**t1, &**t2) {
                (Type::Named(p1), Type::Named(p2)) => assert!(Rc::ptr_eq(p1, p2)),
                other => panic!("unexpected types: {:?}", other),
            }
        }
        other => panic!("unexpected arguments: {:?}", other),
    }
}

#[test]
fn type_back_ref_shares_the_recorded_type() {
    let (symbol, _) = Symbol::parse_from_str("_RINvC1a1fRhB8_E").unwrap();
    let args = generic_args(&symbol);
    match (&args[0], &args[1]) {
        (GenericArg::Type(first), GenericArg::Type(second)) => match &**first {
            Type::Ref { lifetime: 0, type_ } => assert!(Rc::ptr_eq(type_, second)),
            other => panic!("unexpected type: {:?}", other),
        },
        other => panic!("unexpected arguments: {:?}", other),
    }
}

#[test]
fn disambiguator_overflow_fails() {
    assert!(Symbol::parse_from_str("_RCslYGhA16ahyg_1a").is_err());
    assert!(Symbol::parse_from_str("_RCslYGhA16ahye_1a").is_err());
    let (symbol, _) = Symbol::parse_from_str("_RCslYGhA16ahyd_1a").unwrap();
    assert_eq!(*symbol.path, Path::CrateRoot(ident(u64::MAX, "a")));
}

#[test]
fn empty_base62_run_is_zero() {
    let (symbol, _) = Symbol::parse_from_str("_RCs_1a").unwrap();
    assert_eq!(*symbol.path, Path::CrateRoot(ident(1, "a")));
}

#[test]
fn disambiguator_absent_zero_and_one() {
    let (symbol, _) = Symbol::parse_from_str("_RC1a").unwrap();
    assert_eq!(*symbol.path, Path::CrateRoot(ident(0, "a")));
    let (symbol, _) = Symbol::parse_from_str("_RCs0_1a").unwrap();
    assert_eq!(*symbol.path, Path::CrateRoot(ident(2, "a")));
}

#[test]
fn ref_lifetime_absent_is_zero() {
    let (symbol, _) = Symbol::parse_from_str("_RINvC1a1fRhQL0_hE").unwrap();
    let args = generic_args(&symbol);
    assert_eq!(
        args[0],
        GenericArg::Type(Rc::new(Type::Ref { lifetime: 0, type_: Rc::new(Type::Basic(BasicType::U8)) }))
    );
    assert_eq!(
        args[1],
        GenericArg::Type(Rc::new(Type::RefMut { lifetime: 1, type_: Rc::new(Type::Basic(BasicType::U8)) }))
    );
}

#[test]
fn lifetime_generic_arg() {
    let (symbol, _) = Symbol::parse_from_str("_RINvC1a1fL_L0_E").unwrap();
    assert_eq!(generic_args(&symbol), vec![GenericArg::Lifetime(0), GenericArg::Lifetime(1)]);
}

#[test]
fn const_str_needs_even_length() {
    assert!(single_const("_RINvC1a1fKe616_E").is_none());
    match single_const("_RINvC1a1fKe6162_E").unwrap() {
        Const::Str(s) => assert_eq!(s.0, "6162"),
        other => panic!("unexpected constant: {:?}", other),
    }
}

#[test]
fn char_const_must_be_a_scalar_value() {
    assert!(single_const("_RINvC1a1fKcd800_E").is_none());
    assert!(single_const("_RINvC1a1fKcdfff_E").is_none());
    assert!(single_const("_RINvC1a1fKc110000_E").is_none());
    assert_eq!(single_const("_RINvC1a1fKc41_E"), Some(Const::Char('A')));
    assert_eq!(single_const("_RINvC1a1fKc10ffff_E"), Some(Const::Char('\u{10ffff}')));
}

#[test]
fn integer_consts_by_width() {
    assert_eq!(single_const("_RINvC1a1fKhff_E"), Some(Const::U8(255)));
    assert!(single_const("_RINvC1a1fKh100_E").is_none());
    assert_eq!(single_const("_RINvC1a1fKan7f_E"), Some(Const::I8(-127)));
    assert!(single_const("_RINvC1a1fKan80_E").is_none());
    assert_eq!(single_const("_RINvC1a1fKjn0_E"), Some(Const::Usize(0)));
    assert!(single_const("_RINvC1a1fKjn1_E").is_none());
    assert!(single_const("_RINvC1a1fKh_E").is_none());
    assert_eq!(single_const("_RINvC1a1fKo1_E"), Some(Const::U128(1)));
    assert_eq!(single_const("_RINvC1a1fKxn2a_E"), Some(Const::I64(-42)));
}

#[test]
fn bool_consts() {
    assert_eq!(single_const("_RINvC1a1fKb0_E"), Some(Const::Bool(false)));
    assert_eq!(single_const("_RINvC1a1fKb1_E"), Some(Const::Bool(true)));
    assert!(single_const("_RINvC1a1fKb2_E").is_none());
}

#[test]
fn placeholder_and_compound_consts() {
    assert_eq!(single_const("_RINvC1a1fKpE"), Some(Const::Placeholder));
    assert_eq!(
        single_const("_RINvC1a1fKAh1_h2_EE"),
        Some(Const::Array(vec![Rc::new(Const::U8(1)), Rc::new(Const::U8(2))]))
    );
    assert_eq!(single_const("_RINvC1a1fKRpE"), Some(Const::Ref(Rc::new(Const::Placeholder))));
}

#[test]
fn zero_length_identifier() {
    let (symbol, suffix) = Symbol::parse_from_str("_RC0").unwrap();
    assert_eq!(suffix, "");
    assert_eq!(*symbol.path, Path::CrateRoot(ident(0, "")));
    let (symbol, suffix) = Symbol::parse_from_str("_RC0_").unwrap();
    assert_eq!(suffix, "");
    assert_eq!(*symbol.path, Path::CrateRoot(ident(0, "")));
}

#[test]
fn underscore_separates_a_name_that_starts_with_a_digit() {
    let (symbol, _) = Symbol::parse_from_str("_RC2_1a").unwrap();
    assert_eq!(*symbol.path, Path::CrateRoot(ident(0, "1a")));
}

#[test]
fn punycode_identifier_is_decoded() {
    let (symbol, suffix) = Symbol::parse_from_str("_RCu22acadmie_franaise_npb1a").unwrap();
    assert_eq!(suffix, "");
    assert_eq!(
        *symbol.path,
        Path::CrateRoot(Identifier { disambiguator: 0, name: Name::Owned("académie_française".to_string()) })
    );
}

#[test]
fn invalid_punycode_fails() {
    assert!(Symbol::parse_from_str("_RCu3a_9").is_err());
}

#[test]
fn suffix_and_consumed_add_up() {
    for mangled in ["_RC5regexXYZ", "_RNvC1a1fB4_", "_R1C5regex.llvm.9", "_RINvC1a1fhE"] {
        let body = &mangled[2..];
        let (_, suffix) = parse_symbol(body).unwrap();
        assert!(suffix.len() < body.len());
        assert_eq!(&body[body.len() - suffix.len()..], suffix);
    }
}

#[test]
fn truncated_symbols_fail() {
    let full = "_RNvNtCs6GSVXm7oiwY_5regex4utf811decode_utf8";
    for end in 0..full.len() {
        assert!(Symbol::parse_from_str(&full[..end]).is_err(), "prefix of length {} parsed", end);
    }
    assert!(Symbol::parse_from_str(full).is_ok());
}

#[test]
fn parse_symbol_counts_offsets_from_its_input() {
    let (symbol, suffix) = parse_symbol("NvC1a1fB1_").unwrap();
    assert_eq!(suffix, "");
    assert_eq!(symbol.instantiating_crate.as_deref(), Some(&Path::CrateRoot(ident(0, "a"))));
}

#[test]
fn missing_prefix_or_bad_tag_fails() {
    assert!(Symbol::parse_from_str("_ZN3foo").is_err());
    assert!(Symbol::parse_from_str("").is_err());
    assert!(parse_symbol("Z").is_err());
    assert!(parse_symbol("").is_err());
}

#[test]
fn fn_and_dyn_types() {
    let (symbol, _) = Symbol::parse_from_str("_RINvC1a1fFUKCEuDNtC3std3AnyEL_E").unwrap();
    let args = generic_args(&symbol);
    match &*match &args[0] {
        GenericArg::Type(t) => t.clone(),
        other => panic!("unexpected argument: {:?}", other),
    } {
        Type::Fn(sig) => {
            assert!(sig.is_unsafe);
            assert_eq!(sig.bound_lifetimes, 0);
            assert_eq!(sig.abi, Some(ast_demangle::Abi::C));
            assert!(sig.argument_types.is_empty());
            assert_eq!(*sig.return_type, Type::Basic(BasicType::Unit));
        }
        other => panic!("unexpected type: {:?}", other),
    }
    match &args[1] {
        GenericArg::Type(t) => match &**t {
            Type::DynTrait { dyn_bounds, lifetime } => {
                assert_eq!(*lifetime, 0);
                assert_eq!(dyn_bounds.dyn_traits.len(), 1);
            }
            other => panic!("unexpected type: {:?}", other),
        },
        other => panic!("unexpected argument: {:?}", other),
    }
}

#[test]
fn alphanumeric_run() {
    let (run, rest) = alphanumeric0(IndexedStr::new("ab12_x"), &mut ()).unwrap();
    assert_eq!(run, "ab12");
    assert_eq!(rest.index, 4);
    assert_eq!(rest.data, "_x");
    let (run, rest) = alphanumeric0(IndexedStr::new("_x"), &mut ()).unwrap();
    assert_eq!(run, "");
    assert_eq!(rest.index, 0);
}

#[test]
fn impl_and_trait_paths() {
    let (symbol, _) = Symbol::parse_from_str("_RMs_C1ah").unwrap();
    assert_eq!(
        *symbol.path,
        Path::InherentImpl {
            impl_path: ast_demangle::ImplPath { disambiguator: 1, path: Rc::new(Path::CrateRoot(ident(0, "a"))) },
            type_: Rc::new(Type::Basic(BasicType::U8)),
        }
    );
    let (symbol, _) = Symbol::parse_from_str("_RXC1ahC1b").unwrap();
    assert_eq!(
        *symbol.path,
        Path::TraitImpl {
            impl_path: ast_demangle::ImplPath { disambiguator: 0, path: Rc::new(Path::CrateRoot(ident(0, "a"))) },
            type_: Rc::new(Type::Basic(BasicType::U8)),
            trait_: Rc::new(Path::CrateRoot(ident(0, "b"))),
        }
    );
    let (symbol, _) = Symbol::parse_from_str("_RYhC1b").unwrap();
    assert_eq!(
        *symbol.path,
        Path::TraitDefinition {
            type_: Rc::new(Type::Basic(BasicType::U8)),
            trait_: Rc::new(Path::CrateRoot(ident(0, "b"))),
        }
    );
}

#[test]
fn compound_types() {
    let (symbol, suffix) = Symbol::parse_from_str("_RINvC1a1fShThmEPhOhAhh3_E").unwrap();
    assert_eq!(suffix, "");
    let u8_type = || Rc::new(Type::Basic(BasicType::U8));
    assert_eq!(
        generic_args(&symbol),
        vec![
            GenericArg::Type(Rc::new(Type::Slice(u8_type()))),
            GenericArg::Type(Rc::new(Type::Tuple(vec![u8_type(), Rc::new(Type::Basic(BasicType::U32))]))),
            GenericArg::Type(Rc::new(Type::PtrConst(u8_type()))),
            GenericArg::Type(Rc::new(Type::PtrMut(u8_type()))),
            GenericArg::Type(Rc::new(Type::Array(u8_type(), Rc::new(Const::U8(3))))),
        ]
    );
}

#[test]
fn named_struct_consts() {
    assert_eq!(
        single_const("_RINvC1a1fKVC1aUE"),
        Some(Const::NamedStruct {
            path: Rc::new(Path::CrateRoot(ident(0, "a"))),
            fields: ast_demangle::ConstFields::Unit,
        })
    );
    assert_eq!(
        single_const("_RINvC1a1fKVC1aS1xh1_EE"),
        Some(Const::NamedStruct {
            path: Rc::new(Path::CrateRoot(ident(0, "a"))),
            fields: ast_demangle::ConstFields::Struct(vec![(ident(0, "x"), Rc::new(Const::U8(1)))]),
        })
    );
}

#[test]
fn binder_counts_from_one() {
    let (symbol, _) = Symbol::parse_from_str("_RINvC1a1fFG_EuE").unwrap();
    match &generic_args(&symbol)[0] {
        GenericArg::Type(t) => match &**t {
            Type::Fn(sig) => {
                assert_eq!(sig.bound_lifetimes, 1);
                assert!(!sig.is_unsafe);
                assert_eq!(sig.abi, None);
            }
            other => panic!("unexpected type: {:?}", other),
        },
        other => panic!("unexpected argument: {:?}", other),
    }
}

#[test]
fn reference_types_parsed_directly() {
    for (text, mutable, lifetime) in [("Rh", false, 0), ("RL_h", false, 0), ("QL0_h", true, 1)] {
        let mut ctx = Context::new(text.len());
        let (t, rest) = parse_type(IndexedStr::new(text), &mut ctx).unwrap();
        assert_eq!(rest.data, "");
        assert_eq!(rest.index, text.len());
        let type_ = Rc::new(Type::Basic(BasicType::U8));
        let expected = if mutable { Type::RefMut { lifetime, type_ } } else { Type::Ref { lifetime, type_ } };
        assert_eq!(*t, expected);
        assert!(Rc::ptr_eq(ctx.types[0].as_ref().unwrap(), &t));
    }
}

#[test]
fn nested_path_records_parent_and_whole() {
    let text = "NvC1a1f";
    let mut ctx = Context::new(text.len());
    let (p, rest) = parse_path(IndexedStr::new(text), &mut ctx).unwrap();
    assert_eq!(rest.data, "");
    assert!(Rc::ptr_eq(ctx.paths[0].as_ref().unwrap(), &p));
    match &*p {
        Path::Nested { namespace, path, name } => {
            assert_eq!(*namespace, b'v');
            assert!(Rc::ptr_eq(ctx.paths[2].as_ref().unwrap(), path));
            assert_eq!(**path, Path::CrateRoot(ident(0, "a")));
            assert_eq!(*name, ident(0, "f"));
        }
        other => panic!("not a nested path: {:?}", other),
    }
    let recorded: Vec<usize> = (0..text.len()).filter(|&i| ctx.paths[i].is_some()).collect();
    assert_eq!(recorded, vec![0, 2]);
    assert!(ctx.types.iter().all(|t| t.is_none()));
    assert!(ctx.consts.iter().all(|c| c.is_none()));
}

#[test]
fn fn_sig_with_binder_unsafe_and_abi() {
    let (symbol, suffix) = Symbol::parse_from_str("_RINvC1a1fFG_UKCEuE").unwrap();
    assert_eq!(suffix, "");
    match &generic_args(&symbol)[0] {
        GenericArg::Type(t) => match &**t {
            Type::Fn(sig) => {
                assert_eq!(sig.bound_lifetimes, 1);
                assert!(sig.is_unsafe);
                assert_eq!(sig.abi, Some(ast_demangle::Abi::C));
                assert!(sig.argument_types.is_empty());
                assert_eq!(*sig.return_type, Type::Basic(BasicType::Unit));
            }
            other => panic!("unexpected type: {:?}", other),
        },
        other => panic!("unexpected argument: {:?}", other),
    }
}

#[test]
fn dyn_bounds_with_binder_and_no_traits() {
    let (symbol, _) = Symbol::parse_from_str("_RINvC1a1fDG0_EL_E").unwrap();
    match &generic_args(&symbol)[0] {
        GenericArg::Type(t) => match &**t {
            Type::DynTrait { dyn_bounds, lifetime } => {
                assert_eq!(dyn_bounds.bound_lifetimes, 2);
                assert!(dyn_bounds.dyn_traits.is_empty());
                assert_eq!(*lifetime, 0);
            }
            other => panic!("unexpected type: {:?}", other),
        },
        other => panic!("unexpected argument: {:?}", other),
    }
}

#[test]
fn struct_fields_with_placeholder() {
    assert_eq!(
        single_const("_RINvC1a1fKVC1aS1apEE"),
        Some(Const::NamedStruct {
            path: Rc::new(Path::CrateRoot(ident(0, "a"))),
            fields: ast_demangle::ConstFields::Struct(vec![(ident(0, "a"), Rc::new(Const::Placeholder))]),
        })
    );
}

#[test]
fn overflowing_version_fails() {
    assert!(Symbol::parse_from_str("_R99999999999999999999C1a").is_err());
    assert!(parse_symbol("18446744073709551616C1a").is_err());
    assert_eq!(parse_symbol("18446744073709551615C1a").unwrap().0.version, Some(u64::MAX));
}
