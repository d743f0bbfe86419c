use eltrafico::net::{ifstat, ss, Connection};

const SS_HEADER: &str = "Recv-Q Send-Q Local Address:Port Peer Address:Port Process";

#[test]
fn tss() {
    let out = format!(
        "{}\n0 0 127.0.0.1:5000 93.1.2.3:443 users:((\"chrome\",pid=10,fd=5))",
        SS_HEADER
    );
    let table = ss(&out);
    assert_eq!(table.entries.len(), 1);
    assert_eq!(table.entries[0].process, "chrome");
}

#[test]
fn tifstat() {
    let out = "ifstat banner\nline two\nline three\neth0 12.1 3.4\nKB/s KB/s\nwlan0 0.0 0.0\nKB/s KB/s";
    let interfaces = ifstat(out);
    assert_eq!(interfaces.len(), 2);
    assert_eq!(interfaces[0].name, "eth0");
    assert_eq!(interfaces[1].name, "wlan0");
}

#[test]
fn socket_row_scenario() {
    // A well-formed header plus one row yields exactly one connection,
    // keyed by the quoted process name.
    let out = format!(
        "{}\n0 0 127.0.0.1:5000 93.1.2.3:443 users:((\"chrome\",pid=10,fd=5))",
        SS_HEADER
    );
    let table = ss(&out);
    assert_eq!(table.entries.len(), 1);
    let entry = &table.entries[0];
    assert_eq!(entry.process, "chrome");
    assert_eq!(entry.conns.len(), 1);
    assert_eq!(entry.conns[0].laddr, "127.0.0.1");
    assert_eq!(entry.conns[0].lport, "5000");
    assert_eq!(entry.conns[0].raddr, "93.1.2.3");
    assert_eq!(entry.conns[0].rport, "443");
}

#[test]
fn socket_rows_group_in_order() {
    let out = format!(
        "{}\n\
         0 0 10.0.0.1:1000 1.1.1.1:443 users:((\"firefox\",pid=1,fd=3))\n\
         0 0 10.0.0.1:1001 2.2.2.2:443 users:((\"chrome\",pid=2,fd=4))\n\
         0 0 10.0.0.1:1002 3.3.3.3:443 users:((\"firefox\",pid=1,fd=5))",
        SS_HEADER
    );
    let table = ss(&out);
    assert_eq!(table.entries.len(), 2);
    assert_eq!(table.entries[0].process, "firefox");
    assert_eq!(table.entries[1].process, "chrome");
    assert_eq!(table.entries[0].conns.len(), 2);
    assert_eq!(table.entries[0].conns[0].lport, "1000");
    assert_eq!(table.entries[0].conns[1].lport, "1002");
    assert_eq!(table.entries[1].conns.len(), 1);
}

#[test]
fn duplicate_connections_are_kept() {
    let row = "0 0 10.0.0.1:1000 1.1.1.1:443 users:((\"firefox\",pid=1,fd=3))";
    let out = format!("{}\n{}\n{}", SS_HEADER, row, row);
    let table = ss(&out);
    assert_eq!(table.entries.len(), 1);
    assert_eq!(table.entries[0].conns.len(), 2);
}

#[test]
fn malformed_rows_are_skipped_not_fatal() {
    // Too few tokens, no colon, no quoted name: each row contributes
    // nothing, and the valid row after them is still parsed.
    let out = format!(
        "{}\n\
         too few tokens\n\
         0 0 nocolonhere nocolonthere users:((\"x\",pid=1,fd=1))\n\
         0 0 1.2.3.4:5 6.7.8.9:10 users:((noquotes,pid=1,fd=1))\n\
         0 0 10.0.0.1:1000 1.1.1.1:443 users:((\"chrome\",pid=2,fd=4))",
        SS_HEADER
    );
    let table = ss(&out);
    assert_eq!(table.entries.len(), 1);
    assert_eq!(table.entries[0].process, "chrome");
    assert_eq!(table.entries[0].conns.len(), 1);
}

#[test]
fn empty_output_yields_empty_table() {
    let table = ss("");
    assert_eq!(table.entries.len(), 0);
    let header_only = ss(SS_HEADER);
    assert_eq!(header_only.entries.len(), 0);
}

#[test]
fn lookup_finds_by_process_name() {
    let out = format!(
        "{}\n0 0 10.0.0.1:1000 1.1.1.1:443 users:((\"firefox\",pid=1,fd=3))",
        SS_HEADER
    );
    let table = ss(&out);
    assert!(table.lookup("firefox").is_some());
    assert_eq!(table.lookup("firefox").unwrap().len(), 1);
    assert!(table.lookup("chrome").is_none());
}

#[test]
fn interface_count_matches_stride_and_all_down() {
    // Seven lines: three banner lines, then data lines at indices 3 and 5.
    let out = "b1\nb2\nb3\neth0 1 2\nu u\nwlan0 3 4\nu u";
    let interfaces = ifstat(out);
    assert_eq!(interfaces.len(), 2);
    for interface in &interfaces {
        assert!(!interface.is_up());
    }
}

#[test]
fn interface_odd_tail_line_still_counts() {
    // A data line with no units line after it is still taken.
    let out = "b1\nb2\nb3\nlo 0 0";
    let interfaces = ifstat(out);
    assert_eq!(interfaces.len(), 1);
    assert_eq!(interfaces[0].name, "lo");
}

#[test]
fn interface_short_output_yields_nothing() {
    assert_eq!(ifstat("").len(), 0);
    assert_eq!(ifstat("b1\nb2\nb3").len(), 0);
}

#[test]
fn connection_new_keeps_fields() {
    let c = Connection::new("1.2.3.4", "80", "5.6.7.8", "443");
    assert_eq!(c.laddr, "1.2.3.4");
    assert_eq!(c.lport, "80");
    assert_eq!(c.raddr, "5.6.7.8");
    assert_eq!(c.rport, "443");
}
