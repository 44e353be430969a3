use ipcalc::cli::{compare, ErrorKind};

#[test]
fn compare_empty_cidr1() {
    let mut cli = compare::CLI::new(String::new());
    let output = cli.execute("".to_string(), "10.12.25.99/24".to_string());

    assert_eq!(
        Err(ErrorKind::InvalidInput(
            "expecting non empty CIDR argument".to_string()
        )),
        output
    );
}

#[test]
fn compare_unparsable_cidr1() {
    let mut cli = compare::CLI::new(String::new());
    let output = cli.execute("not a CIDR".to_string(), "10.12.25.99/24".to_string());

    assert_eq!(
        Err(ErrorKind::InvalidInput(
            "invalid IPv4 CIDR format".to_string()
        )),
        output
    );
}

#[test]
fn compare_invalid_mask_cidr1() {
    let mut cli = compare::CLI::new(String::new());
    let output = cli.execute("10.12.23.43/200".to_string(), "10.12.25.99/24".to_string());

    assert_eq!(
        Err(ErrorKind::InvalidInput(
            "masklength must be between 0 and 32".to_string()
        )),
        output
    );
}

#[test]
fn compare_empty_cidr2() {
    let mut cli = compare::CLI::new(String::new());
    let output = cli.execute("10.12.23.43/16".to_string(), "".to_string());

    assert_eq!(
        Err(ErrorKind::InvalidInput(
            "expecting non empty OTHER_CIDR argument".to_string()
        )),
        output
    );
}

#[test]
fn compare_unparsable_cidr2() {
    let mut cli = compare::CLI::new(String::new());
    let output = cli.execute("10.12.23.43/16".to_string(), "not a CIDR".to_string());

    assert_eq!(
        Err(ErrorKind::InvalidInput(
            "invalid IPv4 CIDR format".to_string()
        )),
        output
    );
}

#[test]
fn compare_invalid_mask_cidr2() {
    let mut cli = compare::CLI::new(String::new());
    let output = cli.execute("10.12.23.43/16".to_string(), "10.12.25.99/200".to_string());

    assert_eq!(
        Err(ErrorKind::InvalidInput(
            "masklength must be between 0 and 32".to_string()
        )),
        output
    );
}

#[test]
fn on_superset() {
    let mut cli = compare::CLI::new(String::new());
    cli.execute("10.12.23.43/16".to_string(), "10.12.25.99/24".to_string())
        .unwrap();

    assert_eq!("10.12.23.43/16 is a superset of 10.12.25.99/24\n", cli.out);
}

#[test]
fn on_subset() {
    let mut cli = compare::CLI::new(String::new());
    cli.execute("10.12.23.43/24".to_string(), "10.12.25.99/16".to_string())
        .unwrap();

    assert_eq!("10.12.23.43/24 is a subset of 10.12.25.99/16\n", cli.out);
}

#[test]
fn on_equals() {
    let mut cli = compare::CLI::new(String::new());
    cli.execute("10.12.23.43/16".to_string(), "10.12.25.99/16".to_string())
        .unwrap();

    assert_eq!("10.12.23.43/16 is the same as 10.12.25.99/16\n", cli.out);
}

#[test]
fn on_different() {
    let mut cli = compare::CLI::new(String::new());
    cli.execute("10.12.23.43/16".to_string(), "10.14.25.99/16".to_string())
        .unwrap();

    assert_eq!(
        "10.12.23.43/16 is in a different network than 10.14.25.99/16\n",
        cli.out
    );
}
