use ipcalc::cli::{describe, ErrorKind};

#[test]
fn describe_empty_cidr() {
    let mut cli = describe::CLI::new(String::new());
    let output = cli.execute("".to_string());

    assert_eq!(
        Err(ErrorKind::InvalidInput(
            "expecting non empty CIDR argument".to_string()
        )),
        output
    );
}

#[test]
fn describe_unparsable_cidr() {
    let mut cli = describe::CLI::new(String::new());
    let output = cli.execute("not a CIDR".to_string());

    assert_eq!(
        Err(ErrorKind::InvalidInput(
            "invalid IPv4 CIDR format".to_string()
        )),
        output
    );
}

#[test]
fn describe_invalid_mask() {
    let mut cli = describe::CLI::new(String::new());
    let output = cli.execute("10.12.23.43/200".to_string());

    assert_eq!(
        Err(ErrorKind::InvalidInput(
            "masklength must be between 0 and 32".to_string()
        )),
        output
    );
}

#[test]
fn describe_class_a() {
    let mut cli = describe::CLI::new(String::new());
    cli.execute("10.12.23.43/20".to_string()).unwrap();

    let expected_output = "Address:   10.12.23.43          00001010.00001100.00010111.00101011\n\
                           Netmask:   255.255.240.0 = 20   11111111.11111111.11110000.00000000\n\
                           Wildcard:  0.0.15.255           00000000.00000000.00001111.11111111\n\
                           =>\n\
                           Network:   10.12.16.0/20        00001010.00001100.00010000.00000000\n\
                           HostMin:   10.12.16.1           00001010.00001100.00010000.00000001\n\
                           HostMax:   10.12.31.254         00001010.00001100.00011111.11111110\n\
                           Broadcast: 10.12.31.255         00001010.00001100.00011111.11111111\n\
                           Hosts/Net: 4094                 class A, Private Internet\n";

    assert_eq!(expected_output, cli.out);
}

#[test]
fn describe_no_binary() {
    let mut cli = describe::CLI::new(String::new());
    cli.with_binary = false;
    cli.execute("10.12.23.43/20".to_string()).unwrap();

    let expected_output = "Address:   10.12.23.43          \n\
                           Netmask:   255.255.240.0 = 20   \n\
                           Wildcard:  0.0.15.255           \n\
                           =>\n\
                           Network:   10.12.16.0/20        \n\
                           HostMin:   10.12.16.1           \n\
                           HostMax:   10.12.31.254         \n\
                           Broadcast: 10.12.31.255         \n\
                           Hosts/Net: 4094                 class A, Private Internet\n";

    assert_eq!(expected_output, cli.out);
}

#[test]
fn describe_host_route() {
    let mut cli = describe::CLI::new(String::new());
    cli.with_binary = false;
    cli.execute("192.0.2.7/32".to_string()).unwrap();

    let expected_output = "Address:   192.0.2.7            \n\
                           Netmask:   255.255.255.255 = 32 \n\
                           Wildcard:  0.0.0.0              \n\
                           =>\n\
                           Network:   192.0.2.7/32         \n\
                           HostMin:   n/a                  \n\
                           HostMax:   n/a                  \n\
                           Broadcast: n/a                  \n\
                           Hosts/Net: 1                    class C, Special (documentation)\n";

    assert_eq!(expected_output, cli.out);
}
