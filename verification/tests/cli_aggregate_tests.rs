use ipcalc::cli::{aggregate, ErrorKind};

#[test]
fn aggregate_empty_cidr() {
    let mut cli = aggregate::CLI::new(String::new());
    let output = cli.execute("".to_string(), "24".to_string());

    assert_eq!(
        Err(ErrorKind::InvalidInput(
            "expecting non empty CIDR argument".to_string()
        )),
        output
    );
}

#[test]
fn aggregate_empty_mask() {
    let mut cli = aggregate::CLI::new(String::new());
    let output = cli.execute("10.12.5.255/32".to_string(), "".to_string());

    assert_eq!(
        Err(ErrorKind::InvalidInput(
            "expecting non empty MASK argument".to_string()
        )),
        output
    );
}

#[test]
fn aggregate_unparsable_cidr() {
    let mut cli = aggregate::CLI::new(String::new());
    let output = cli.execute("not a CIDR".to_string(), "24".to_string());

    assert_eq!(
        Err(ErrorKind::InvalidInput(
            "invalid IPv4 CIDR format".to_string()
        )),
        output
    );
}

#[test]
fn aggregate_invalid_cidr_mask() {
    let mut cli = aggregate::CLI::new(String::new());
    let output = cli.execute("10.12.5.255/200".to_string(), "24".to_string());

    assert_eq!(
        Err(ErrorKind::InvalidInput(
            "masklength must be between 0 and 32".to_string()
        )),
        output
    );
}

#[test]
fn aggregate_unparsable_mask() {
    let mut cli = aggregate::CLI::new(String::new());
    let output = cli.execute("10.12.5.255/32".to_string(), "not a mask".to_string());

    assert_eq!(
        Err(ErrorKind::InvalidInput("invalid mask format".to_string())),
        output
    );
}

#[test]
fn aggregate_invalid_mask_range() {
    let mut cli = aggregate::CLI::new(String::new());
    let output = cli.execute("10.12.5.255/32".to_string(), "200".to_string());

    assert_eq!(
        Err(ErrorKind::InvalidInput(
            "mask length must be between 0 and 32".to_string()
        )),
        output
    );
}

#[test]
fn aggregate_mask_over_255_range_message() {
    let mut cli = aggregate::CLI::new(String::new());
    let output = cli.execute("10.12.5.255/32".to_string(), "300".to_string());

    assert_eq!(
        Err(ErrorKind::InvalidInput(
            "mask length must be between 0 and 32".to_string()
        )),
        output
    );
}

#[test]
fn aggregate_32_to_24() {
    let mut cli = aggregate::CLI::new(String::new());
    cli.execute("10.12.5.255/32".to_string(), "24".to_string())
        .unwrap();

    let expected_output = "10.12.5.0/24\n\
                           10.12.5.128/25\n\
                           10.12.5.192/26\n\
                           10.12.5.224/27\n\
                           10.12.5.240/28\n\
                           10.12.5.248/29\n\
                           10.12.5.252/30\n\
                           10.12.5.254/31\n\
                           10.12.5.255/32\n";

    assert_eq!(expected_output, cli.out);
}

#[test]
fn aggregate_24_to_32() {
    let mut cli = aggregate::CLI::new(String::new());
    cli.execute("10.12.5.255/24".to_string(), "32".to_string())
        .unwrap();

    let expected_output = "10.12.5.255/24\n\
                           10.12.5.255/25\n\
                           10.12.5.255/26\n\
                           10.12.5.255/27\n\
                           10.12.5.255/28\n\
                           10.12.5.255/29\n\
                           10.12.5.255/30\n\
                           10.12.5.255/31\n\
                           10.12.5.255/32\n";

    assert_eq!(expected_output, cli.out);
}
