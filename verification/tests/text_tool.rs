use chat_relay::csv::{csv, Csv, CsvError};
use chat_relay::operation::{Operation, OperationWithParam};
use chat_relay::spf::evaluate_records;
use chat_relay::textops::{len, lowercase, no_space, reverse, slugify, uppercase};

#[test]
fn invalid() {
    assert_eq!(true, Csv::parse("").is_err());
    assert_eq!(true, Csv::parse("a,").is_err());
    assert_eq!(true, Csv::parse("a,\n").is_err());
    assert_eq!(true, Csv::parse(",a\n").is_err());
    assert_eq!(true, Csv::parse("a,b\n1").is_err());
    assert_eq!(true, Csv::parse("a\n1,2").is_err());
    assert_eq!(true, Csv::parse("a\n1\n1,2").is_err());
    assert_eq!(true, Csv::parse("a\n1,2\n1").is_err());
}

#[test]
fn simplest_valid() {
    assert_eq!(true, Csv::parse("a").is_ok());
    assert_eq!(true, Csv::parse("a\n").is_ok());
    assert_eq!(true, Csv::parse("a,b").is_ok());
    assert_eq!(true, Csv::parse("a,b\n").is_ok());
}

#[test]
fn simple_1col() {
    let csv = Csv::parse("a").unwrap();
    assert_eq!(&vec!["a"], csv.header());
    assert!(csv.rows().is_empty());

    let csv = Csv::parse("a\nb").unwrap();
    assert_eq!(&vec!["a"], csv.header());
    assert_eq!(&vec![vec!["b"]], csv.rows());

    let csv = Csv::parse("a\nb\nc").unwrap();
    assert_eq!(&vec!["a"], csv.header());
    assert_eq!(&vec![vec!["b"], vec!["c"]], csv.rows());
}

#[test]
fn simple_2col() {
    let csv = Csv::parse("a,a2").unwrap();
    assert_eq!(&vec!["a", "a2"], csv.header());
    assert!(csv.rows().is_empty());

    let csv = Csv::parse("a,a2\nb,b2").unwrap();
    assert_eq!(&vec!["a", "a2"], csv.header());
    assert_eq!(&vec![vec!["b", "b2"]], csv.rows());

    let csv = Csv::parse("a,a2\nb,b2\nc,c2").unwrap();
    assert_eq!(&vec!["a", "a2"], csv.header());
    assert_eq!(&vec![vec!["b", "b2"], vec!["c", "c2"]], csv.rows());
}

#[test]
fn simple_2col_empty_cell() {
    let csv = Csv::parse("a,a2\nb,").unwrap();
    assert_eq!(&vec!["a", "a2"], csv.header());
    assert_eq!(&vec![vec!["b", ""]], csv.rows());

    let csv = Csv::parse("a,a2\n,b").unwrap();
    assert_eq!(&vec!["a", "a2"], csv.header());
    assert_eq!(&vec![vec!["", "b"]], csv.rows());
}

#[test]
fn simple_3col_empty_cell() {
    let csv = Csv::parse("a,a2,a3\nb,,b3").unwrap();
    assert_eq!(&vec!["a", "a2", "a3"], csv.header());
    assert_eq!(&vec![vec!["b", "", "b3"]], csv.rows());

    let csv = Csv::parse("a,a2,a3\n,,").unwrap();
    assert_eq!(&vec!["a", "a2", "a3"], csv.header());
    assert_eq!(&vec![vec!["", "", ""]], csv.rows());
}

#[test]
fn simplest() {
    assert_eq!("a\n-\n", Csv::parse("a").unwrap().stringify());
    assert_eq!("a\n-\nb", Csv::parse("a\nb").unwrap().stringify());
}

#[test]
fn csv_simple_2col() {
    let display = "\
          a|b\
        \n---\
        \nc|d";
    assert_eq!(display, Csv::parse("a,b\nc,d").unwrap().stringify());

    let display = "\
          a|blong\
        \n-------\
        \nc|d    ";
    assert_eq!(display, Csv::parse("a,blong\nc,d").unwrap().stringify());

    let display = "\
          along|b\
        \n-------\
        \nc    |d";
    assert_eq!(display, Csv::parse("along,b\nc,d").unwrap().stringify());

    let display = "\
          along|blong\
        \n-----------\
        \nc    |d    ";
    assert_eq!(display, Csv::parse("along,blong\nc,d").unwrap().stringify());

    let display = "\
          a    |b\
        \n-------\
        \nclong|d";
    assert_eq!(display, Csv::parse("a,b\nclong,d").unwrap().stringify());

    let display = "\
          a|b    \
        \n-------\
        \nc|dlong";
    assert_eq!(display, Csv::parse("a,b\nc,dlong").unwrap().stringify());
}

#[test]
fn more_columns() {
    let display = "\
          asome  |b |dsome        \
        \n------------------------\
        \nc      |d |adf          \
        \nsomelon|ab|             \
        \n       |  |somelongagain\
        \na      |b |c            ";
    assert_eq!(
        display,
        Csv::parse("asome,b,dsome\nc,d,adf\nsomelon,ab,\n,,somelongagain\na,b,c")
            .unwrap()
            .stringify()
    );
}

#[test]
fn parse_enum() {
    assert_eq!(Ok(Operation::Len), "len".parse());
}

#[test]
fn csv_error_variants() {
    assert_eq!(Csv::parse("").unwrap_err(), CsvError::MissingHeader);
    assert_eq!(Csv::parse("a,\n").unwrap_err(), CsvError::EmptyHeaderField);
    assert_eq!(Csv::parse("a,b\n1").unwrap_err(), CsvError::ColumnCountMismatch);
}

#[test]
fn csv_transform_renders_table() {
    assert_eq!(csv("a,b\nc,d").unwrap(), "a|b\n---\nc|d");
    assert_eq!(csv("").unwrap_err(), CsvError::MissingHeader);
}

#[test]
fn operations_parse_all_names() {
    assert_eq!(Ok(Operation::Lowercase), "lowercase".parse());
    assert_eq!(Ok(Operation::Uppercase), "uppercase".parse());
    assert_eq!(Ok(Operation::Slugify), "slugify".parse());
    assert_eq!(Ok(Operation::NoSpaces), "no-spaces".parse());
    assert_eq!(Ok(Operation::Reverse), "reverse".parse());
    assert_eq!(Ok(Operation::Csv), "csv".parse());
    assert!("dance".parse::<Operation>().is_err());
}

#[test]
fn operation_with_param_construction() {
    let op = OperationWithParam::new(Operation::Len, String::from("abc"));
    assert_eq!(op.operation, Operation::Len);
    assert_eq!(op.param, "abc");
    let quit = OperationWithParam::exit();
    assert_eq!(quit.operation, Operation::Exit);
    assert_eq!(quit.param, "");
}

#[test]
fn text_transforms() {
    assert_eq!(lowercase("AbC dEf"), "abc def");
    assert_eq!(uppercase("AbC dEf"), "ABC DEF");
    assert_eq!(slugify("My Test String!!!1!1"), "my-test-string-1-1");
    assert_eq!(no_space("a b  c"), "abc");
    assert_eq!(len("hello"), "5");
    assert_eq!(len(""), "0");
    assert_eq!(reverse("abc"), "cba");
    assert_eq!(reverse(""), "");
}

#[test]
fn spf_classification() {
    let records = vec![
        String::from("v=spf1 include:example.com ~all"),
        String::from("google-site-verification=abc"),
        String::from("v=spf1 -all"),
    ];
    let outcome = evaluate_records(&records);
    assert!(outcome.result);
    assert_eq!(
        outcome.records,
        vec![
            String::from("v=spf1 include:example.com ~all"),
            String::from("v=spf1 -all"),
        ]
    );

    let none = evaluate_records(&vec![String::from("hello")]);
    assert!(!none.result);
    assert!(none.records.is_empty());
}
