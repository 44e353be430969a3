use ipcalc::cli::{split, ErrorKind};

#[test]
fn split_empty_cidr() {
    let mut cli = split::CLI::new(String::new());
    let output = cli.execute("".to_string(), "24".to_string());

    assert_eq!(
        Err(ErrorKind::InvalidInput(
            "expecting non empty CIDR argument".to_string()
        )),
        output
    );
}

#[test]
fn split_empty_mask() {
    let mut cli = split::CLI::new(String::new());
    let output = cli.execute("10.12.5.255/32".to_string(), "".to_string());

    assert_eq!(
        Err(ErrorKind::InvalidInput(
            "expecting non empty MASK argument".to_string()
        )),
        output
    );
}

#[test]
fn split_unparsable_cidr() {
    let mut cli = split::CLI::new(String::new());
    let output = cli.execute("not a CIDR".to_string(), "24".to_string());

    assert_eq!(
        Err(ErrorKind::InvalidInput(
            "invalid IPv4 CIDR format".to_string()
        )),
        output
    );
}

#[test]
fn split_invalid_cidr_mask() {
    let mut cli = split::CLI::new(String::new());
    let output = cli.execute("10.12.5.255/200".to_string(), "24".to_string());

    assert_eq!(
        Err(ErrorKind::InvalidInput(
            "masklength must be between 0 and 32".to_string()
        )),
        output
    );
}

#[test]
fn split_unparsable_mask() {
    let mut cli = split::CLI::new(String::new());
    let output = cli.execute("10.12.5.255/32".to_string(), "not a mask".to_string());

    assert_eq!(
        Err(ErrorKind::InvalidInput("invalid mask format".to_string())),
        output
    );
}

#[test]
fn split_invalid_mask_range() {
    let mut cli = split::CLI::new(String::new());
    let output = cli.execute("10.12.5.255/32".to_string(), "200".to_string());

    assert_eq!(
        Err(ErrorKind::InvalidInput(
            "mask length must be between 0 and 32".to_string()
        )),
        output
    );
}

#[test]
fn split_host_reports_single_network() {
    let mut cli = split::CLI::new(String::new());
    cli.with_binary = false;
    cli.execute("10.13.5.78/24".to_string(), "26".to_string())
        .unwrap();

    let expected_output = "Address:   10.13.5.78           \n\
                           Netmask:   255.255.255.192 = 26 \n\
                           Wildcard:  0.0.0.63             \n\
                           =>\n\
                           Network:   10.13.5.64/26        \n\
                           HostMin:   10.13.5.65           \n\
                           HostMax:   10.13.5.126          \n\
                           Broadcast: 10.13.5.127          \n\
                           Hosts/Net: 62                   class A, Private Internet\n";

    assert_eq!(expected_output, cli.out);
}

#[test]
fn split_network_reports_each_quarter() {
    let mut cli = split::CLI::new(String::new());
    cli.with_binary = false;
    cli.execute("10.13.5.0/26".to_string(), "27".to_string())
        .unwrap();

    let expected_output = "========\n\
                           Address:   10.13.5.0            \n\
                           Netmask:   255.255.255.224 = 27 \n\
                           Wildcard:  0.0.0.31             \n\
                           =>\n\
                           Network:   10.13.5.0/27         \n\
                           HostMin:   10.13.5.1            \n\
                           HostMax:   10.13.5.30           \n\
                           Broadcast: 10.13.5.31           \n\
                           Hosts/Net: 30                   class A, Private Internet\n\
                           ========\n\
                           Address:   10.13.5.32           \n\
                           Netmask:   255.255.255.224 = 27 \n\
                           Wildcard:  0.0.0.31             \n\
                           =>\n\
                           Network:   10.13.5.32/27        \n\
                           HostMin:   10.13.5.33           \n\
                           HostMax:   10.13.5.62           \n\
                           Broadcast: 10.13.5.63           \n\
                           Hosts/Net: 30                   class A, Private Internet\n";

    assert_eq!(expected_output, cli.out);
}
