use postgres_extension::export::{
    calling_convention, plan_export, ExportArg, ExportError, ExportFn, ExportItem,
};

fn ident(s: &str) -> ExportArg {
    ExportArg::Ident(s.to_string())
}

fn function(name: &str) -> ExportFn {
    ExportFn { name: name.to_string(), is_const: false, is_pub: false, is_async: false, is_variadic: false }
}

#[test]
fn calling_convention_reads_v1_and_c() {
    assert_eq!(calling_convention(&vec![ident("V1")]), Ok(true));
    assert_eq!(calling_convention(&vec![ident("C")]), Ok(false));
}

#[test]
fn calling_convention_refuses_an_unknown_option() {
    assert_eq!(calling_convention(&vec![ident("V2")]), Err(ExportError::InvalidOption(0)));
    assert_eq!(calling_convention(&vec![ident("C"), ident("v1")]), Err(ExportError::InvalidOption(1)));
}

#[test]
fn calling_convention_refuses_a_non_identifier() {
    assert_eq!(calling_convention(&vec![ExportArg::Other]), Err(ExportError::OptionParse(0)));
    assert_eq!(
        calling_convention(&vec![ident("V1"), ExportArg::Other, ident("x")]),
        Err(ExportError::OptionParse(1))
    );
}

#[test]
fn calling_convention_needs_exactly_one_option() {
    assert_eq!(calling_convention(&vec![]), Err(ExportError::OptionCount));
    assert_eq!(calling_convention(&vec![ident("V1"), ident("C")]), Err(ExportError::OptionCount));
}

#[test]
fn plan_export_names_the_v1_symbols() {
    let plan = plan_export(true, &ExportItem::Function(function("udf_spi"))).ok().unwrap();
    assert!(plan.v1);
    assert_eq!(plan.export_name, "udf_spi");
    assert_eq!(plan.handler_name, "rust_panic_handler_udf_spi");
    assert_eq!(plan.finfo_name.unwrap(), "pg_finfo_udf_spi");
}

#[test]
fn plan_export_emits_no_record_for_c() {
    let plan = plan_export(false, &ExportItem::Function(function("f"))).ok().unwrap();
    assert!(!plan.v1);
    assert!(plan.finfo_name.is_none());
    assert_eq!(plan.handler_name, "rust_panic_handler_f");
}

#[test]
fn plan_export_refuses_what_cannot_be_exported() {
    assert_eq!(plan_export(true, &ExportItem::Other).err(), Some(ExportError::NotAFunction));
    let mut f = function("f");
    f.is_const = true;
    f.is_pub = true;
    assert_eq!(plan_export(true, &ExportItem::Function(f)).err(), Some(ExportError::ConstFn));
    let mut f = function("f");
    f.is_pub = true;
    f.is_async = true;
    assert_eq!(plan_export(true, &ExportItem::Function(f)).err(), Some(ExportError::PubFn));
    let mut f = function("f");
    f.is_async = true;
    f.is_variadic = true;
    assert_eq!(plan_export(false, &ExportItem::Function(f)).err(), Some(ExportError::AsyncFn));
    let mut f = function("f");
    f.is_variadic = true;
    assert_eq!(plan_export(false, &ExportItem::Function(f)).err(), Some(ExportError::VariadicFn));
}
