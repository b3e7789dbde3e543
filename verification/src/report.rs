//! The report on a block, and what the calculator prints for its arguments.

use vstd::prelude::*;
use vstd::string::*;
use crate::address::{binary_text, dotted_text, push_binary, push_reverse_dns, reverse_dns_text};
use crate::cidr::{CidrView, CIDR};
use crate::decimal::{decimal_text, push_decimal};
use crate::parse::{parse_outcome, CidrError};

verus! {

/// The width of the column that holds an address in decimal.
pub const COLUMN: usize = 16;

/// `text`, filled up with spaces on the right to `width` characters. A text
/// that is longer stays as it is.
pub open spec fn padded(text: Seq<char>, width: nat) -> Seq<char> {
    if text.len() < width {
        text + Seq::new((width - text.len()) as nat, |i: int| ' ')
    } else {
        text
    }
}

/// One line of the report: a label, an address in dotted-decimal notation
/// in its column, and the same address in dotted-binary notation.
pub open spec fn address_line(label: Seq<char>, address: u32) -> Seq<char> {
    label + padded(dotted_text(address), COLUMN as nat) + seq![' '] + binary_text(address) + seq!['\n']
}

/// The last line of the report: the number of hosts in its column, and the
/// reverse-DNS name of the address.
pub open spec fn hosts_line(block: CidrView) -> Seq<char> {
    "NumHosts:  "@ + padded(
        decimal_text(block.num_hosts() as nat),
        COLUMN as nat,
    ) + " rDNS: "@
        + reverse_dns_text(block.address) + seq!['\n']
}

/// The report on a block, line by line.
pub open spec fn report_text(block: CidrView) -> Seq<char> {
    address_line("Address:   "@, block.address) + address_line("Netmask:   "@, block.netmask)
        + "---------------------------------------------------------------\n"@ + address_line(
        "Network:   "@,
        block.network().address,
    ) + address_line("HostMin:   "@, block.host_min().address) + address_line(
        "HostMax:   "@,
        block.host_max().address,
    ) + address_line("Broadcast: "@, block.broadcast().address) + hosts_line(block)
}

/// The line that tells how to call the program.
pub open spec fn usage_text(program: Seq<char>) -> Seq<char> {
    "usage: "@ + program + " <cidr>\n"@
}

/// The line that reports a text that is not a block.
pub open spec fn error_text(error: CidrError) -> Seq<char> {
    "error: "@ + error.message_text() + seq!['\n']
}

/// What the calculator prints when called as `program` with `operands`:
/// the usage line unless there is exactly one operand, else the report on
/// the block that the operand denotes, or the error line if it denotes none.
pub open spec fn run_output(program: Seq<char>, operands: Seq<Seq<char>>) -> Seq<char> {
    if operands.len() != 1 {
        usage_text(program)
    } else {
        match parse_outcome(operands[0]) {
            Ok(block) => report_text(block),
            Err(error) => error_text(error),
        }
    }
}

/// Appends `text` and fills up with spaces to `width` characters.
fn push_padded(out: &mut String, text: &str, width: usize)
    ensures
        final(out)@ == old(out)@ + padded(text@, width as nat),
{
    proof {
        reveal_strlit(" ");
    }
    out.append(text);
    let len = text.unicode_len();
    let mut n: usize = len;
    while n < width
        invariant
            len == text@.len(),
            len <= n,
            n <= width || n == len,
            out@ == old(out)@ + text@ + Seq::new((n - len) as nat, |i: int| ' '),
            " "@ == seq![' '],
        decreases width - n,
    {
        out.append(" ");
        n = n + 1;
        assert(out@ =~= old(out)@ + text@ + Seq::new((n - len) as nat, |i: int| ' '));
    }
    assert(out@ =~= old(out)@ + padded(text@, width as nat));
}

/// Appends one line of the report.
fn push_address_line(out: &mut String, label: &str, address: u32)
    ensures
        final(out)@ == old(out)@ + address_line(label@, address),
{
    proof {
        reveal_strlit(" ");
        reveal_strlit("\n");
    }
    let dotted = CIDR::to_string(address);
    out.append(label);
    push_padded(out, dotted.as_str(), COLUMN);
    out.append(" ");
    push_binary(out, address);
    out.append("\n");
    assert(out@ =~= old(out)@ + address_line(label@, address));
}

impl CIDR {
    /// The report on the block: its address and netmask, the network,
    /// the first and last host, the broadcast address, the number of hosts
    /// and the reverse-DNS name.
    pub fn report(&self) -> (text: String)
        ensures
            text@ == report_text(self@),
    {
        proof {
            reveal_strlit("\n");
        }
        let mut out = String::new();
        push_address_line(&mut out, "Address:   ", self.to_u32());
        push_address_line(&mut out, "Netmask:   ", self.netmask().to_u32());
        out.append("---------------------------------------------------------------\n");
        push_address_line(&mut out, "Network:   ", self.network().to_u32());
        push_address_line(&mut out, "HostMin:   ", self.host_min().to_u32());
        push_address_line(&mut out, "HostMax:   ", self.host_max().to_u32());
        push_address_line(&mut out, "Broadcast: ", self.broadcast().to_u32());
        let mut hosts = String::new();
        push_decimal(&mut hosts, self.num_hosts());
        assert(hosts@ =~= decimal_text(self@.num_hosts() as nat));
        out.append("NumHosts:  ");
        push_padded(&mut out, hosts.as_str(), COLUMN);
        out.append(" rDNS: ");
        push_reverse_dns(&mut out, self.to_u32());
        out.append("\n");
        assert(out@ =~= report_text(self@));
        out
    }
}

/// What the calculator prints when called as `program` with `operands`.
pub fn run(program: &str, operands: &Vec<String>) -> (out: String)
    ensures
        out@ == run_output(program@, operands.deep_view()),
{
    let mut out = String::new();
    if operands.len() != 1 {
        out.append("usage: ");
        out.append(program);
        out.append(" <cidr>\n");
        assert(out@ =~= usage_text(program@));
        return out;
    }
    assert(operands.deep_view()[0] == operands@[0]@);
    match CIDR::from_string(operands[0].clone()) {
        Ok(block) => block.report(),
        Err(error) => {
            out.append("error: ");
            out.append(error.message());
            out.append("\n");
            proof {
                reveal_strlit("\n");
            }
            assert(out@ =~= error_text(error));
            out
        },
    }
}

} // verus!
