//! NVMe over Fabrics / RDMA capsules.
//!
//! NVMe/RDMA carries capsules over RDMA SEND operations: a command capsule is
//! a 64-byte submission queue entry, a response capsule a 16-byte completion
//! queue entry. Bulk data moves separately and is not in the SEND.
//!
//! Nothing in a lone SEND says that its queue pair carries NVMe, so detection
//! is conservative. By itself a capsule is claimed only where it is
//! unmistakably a Fabrics command (opcode 0x7f); on request every capsule is
//! decoded, which adds the I/O command fields and the completion status.
//!
//! All NVMe structures are little-endian.

use vstd::prelude::*;

use crate::bytes::{get_le16, get_le32, get_le64};
#[allow(unused_imports)]
use crate::bytes::{le16, le32, le64};
use crate::field::Node;
#[allow(unused_imports)]
use crate::field::{is_layer, layer, num, shows_number, with_child, NodeView};
use crate::text::{cat2, cat3, cat4, cat5, cat6, dec, hexw};
#[allow(unused_imports)]
use crate::text::{dec_text, hex_fixed};

verus! {

/// The opcode of every Fabrics command.
pub const FABRICS_OPCODE: u8 = 0x7f;

/// A decoded capsule: the protocol label, what it adds to the info column,
/// and its part of the detail tree.
pub ghost struct Capsule {
    pub label: Seq<char>,
    pub info: Seq<char>,
    pub node: NodeView,
}

/// The name of a Fabrics command type.
pub open spec fn fabrics_type(fctype: u8) -> Seq<char> {
    if fctype == 0x00 {
        "Property Set"@
    } else if fctype == 0x01 {
        "Connect"@
    } else if fctype == 0x04 {
        "Property Get"@
    } else if fctype == 0x05 {
        "Authentication Send"@
    } else if fctype == 0x06 {
        "Authentication Receive"@
    } else if fctype == 0x08 {
        "Disconnect"@
    } else {
        "Unknown"@
    }
}

/// The name of an opcode of the NVM command set. Admin opcodes overlap with
/// these; I/O dominates NVMe/RDMA traffic.
pub open spec fn io_opcode(opcode: u8) -> Seq<char> {
    if opcode == 0x00 {
        "Flush"@
    } else if opcode == 0x01 {
        "Write"@
    } else if opcode == 0x02 {
        "Read"@
    } else if opcode == 0x04 {
        "Write Uncorrectable"@
    } else if opcode == 0x05 {
        "Compare"@
    } else if opcode == 0x08 {
        "Write Zeroes"@
    } else if opcode == 0x09 {
        "Dataset Management"@
    } else if opcode == 0x0d {
        "Reservation Register"@
    } else if opcode == 0x0e {
        "Reservation Report"@
    } else {
        "Unknown"@
    }
}

/// A Fabrics command: command identifier in bytes 2 and 3, command type in
/// byte 4.
pub open spec fn fabrics(sqe: Seq<u8>) -> Capsule {
    let cid = le16(sqe, 2);
    let fctype = sqe[4];
    let name = fabrics_type(fctype);
    Capsule {
        label: "NVMeF"@,
        info: " | NVMe-oF "@ + name + " CID="@ + dec_text(cid),
        node: layer(
            "NVMe over Fabrics \u{2014} "@ + name + " command"@,
            seq![
                num("nvme.cmd.opcode"@, 0x7f, "Opcode: Fabrics (0x7f)"@),
                num(
                    "nvmeof.fctype"@,
                    fctype as nat,
                    "Fabrics Command Type: "@ + name + " (0x"@ + hex_fixed(fctype as nat, 2)
                        + ")"@,
                ),
                num("nvme.cmd.cid"@, cid, "Command Identifier: "@ + dec_text(cid)),
            ],
        ),
    }
}

/// Whether an I/O command carries a block range.
pub open spec fn has_range(opcode: u8) -> bool {
    opcode == 0x01 || opcode == 0x02 || opcode == 0x04 || opcode == 0x05 || opcode == 0x08
}

/// An I/O command: command identifier in bytes 2 and 3, namespace in bytes 4
/// to 7, and for commands on blocks the first block in bytes 40 to 47 and the
/// block count less one in bytes 48 and 49.
pub open spec fn io_command(sqe: Seq<u8>) -> Capsule {
    let opcode = sqe[0];
    let cid = le16(sqe, 2);
    let nsid = le32(sqe, 4);
    let slba = le64(sqe, 40);
    let nlb = le16(sqe, 48) + 1;
    let name = io_opcode(opcode);
    let head = layer(
        "NVMe command \u{2014} "@ + name,
        seq![
            num(
                "nvme.cmd.opcode"@,
                opcode as nat,
                "Opcode: "@ + name + " (0x"@ + hex_fixed(opcode as nat, 2) + ")"@,
            ),
            num("nvme.cmd.cid"@, cid, "Command Identifier: "@ + dec_text(cid)),
            num("nvme.cmd.nsid"@, nsid, "Namespace Identifier: "@ + dec_text(nsid)),
        ],
    );
    let info = " | NVMe "@ + name + " nsid="@ + dec_text(nsid) + " CID="@ + dec_text(cid);
    if has_range(opcode) {
        Capsule {
            label: "NVMe"@,
            info: info + (" SLBA="@ + dec_text(slba) + " NLB="@ + dec_text(nlb)),
            node: with_child(
                with_child(
                    head,
                    num("nvme.cmd.slba"@, slba, "Starting LBA: "@ + dec_text(slba)),
                ),
                num("nvme.cmd.nlb"@, nlb, "Number of Logical Blocks: "@ + dec_text(nlb)),
            ),
        }
    } else {
        Capsule { label: "NVMe"@, info, node: head }
    }
}

/// A completion: command identifier in bytes 12 and 13, then the status word
/// with a phase bit, eight bits of status code and three of its type.
pub open spec fn response(cqe: Seq<u8>) -> Capsule {
    let cid = le16(cqe, 12);
    let status = le16(cqe, 14);
    let phase = status % 2;
    let sc = (status / 2) % 256;
    let sct = (status / 512) % 8;
    let codes = "SCT="@ + dec_text(sct) + " SC=0x"@ + hex_fixed(sc, 2);
    Capsule {
        label: "NVMe"@,
        info: " | NVMe response CID="@ + dec_text(cid) + " status="@ + (if sc == 0 && sct == 0 {
            "Success"@
        } else {
            codes
        }),
        node: layer(
            "NVMe response (CQE)"@,
            seq![
                num("nvme.cqe.cid"@, cid, "Command Identifier: "@ + dec_text(cid)),
                num(
                    "nvme.cqe.status"@,
                    status,
                    "Status: 0x"@ + hex_fixed(status, 4) + " ("@ + codes + ", phase="@ + (dec_text(
                        phase,
                    ) + ")"@),
                ),
            ],
        ),
    }
}

/// What the payload of a SEND is taken for: a Fabrics command always, any
/// other command or a completion only if `force`, nothing else.
pub open spec fn capsule(c: Seq<u8>, force: bool) -> Option<Capsule> {
    if c.len() >= 64 {
        if c[0] == FABRICS_OPCODE {
            Some(fabrics(c))
        } else if force {
            Some(io_command(c))
        } else {
            None
        }
    } else if force && c.len() >= 16 {
        Some(response(c))
    } else {
        None
    }
}

/// Decodes the payload of a SEND (without its checksum) as an NVMe capsule.
/// Where it is taken for one, adds its node to `parent` and its summary to
/// `info` and returns the protocol label; else leaves both as they are.
pub fn try_dissect(capsule_bytes: &[u8], force: bool, info: &mut String, parent: &mut Node) -> (r:
    Option<&'static str>)
    ensures
        match capsule(capsule_bytes@, force) {
            Some(c) => {
                &&& r is Some
                &&& r->0@ == c.label
                &&& final(info)@ == old(info)@ + c.info
                &&& final(parent)@ == with_child(old(parent)@, c.node)
            },
            None => {
                &&& r is None
                &&& final(info)@ == old(info)@
                &&& final(parent)@ == old(parent)@
            },
        },
{
    if capsule_bytes.len() >= 64 {
        if capsule_bytes[0] == FABRICS_OPCODE {
            decode_fabrics(capsule_bytes, info, parent);
            return Some("NVMeF");
        }
        if force {
            decode_io_command(capsule_bytes, info, parent);
            return Some("NVMe");
        }
        return None;
    }
    if force && capsule_bytes.len() >= 16 {
        decode_response(capsule_bytes, info, parent);
        return Some("NVMe");
    }
    None
}

fn fabrics_type_name(fctype: u8) -> (r: &'static str)
    ensures
        r@ == fabrics_type(fctype),
{
    match fctype {
        0x00 => "Property Set",
        0x01 => "Connect",
        0x04 => "Property Get",
        0x05 => "Authentication Send",
        0x06 => "Authentication Receive",
        0x08 => "Disconnect",
        _ => "Unknown",
    }
}

fn decode_fabrics(sqe: &[u8], info: &mut String, parent: &mut Node)
    requires
        sqe.len() >= 64,
    ensures
        final(info)@ == old(info)@ + fabrics(sqe@).info,
        final(parent)@ == with_child(old(parent)@, fabrics(sqe@).node),
{
    let cid = get_le16(sqe, 2) as u64;
    let fctype = sqe[4];
    let name = fabrics_type_name(fctype);

    let mut node = Node::proto(&cat3("NVMe over Fabrics \u{2014} ", name, " command"));
    node.add_num("nvme.cmd.opcode", 0x7f, "Opcode: Fabrics (0x7f)");
    node.add_num(
        "nvmeof.fctype",
        fctype as u64,
        &cat5("Fabrics Command Type: ", name, " (0x", &hexw(fctype as u64, 2), ")"),
    );
    node.add_num("nvme.cmd.cid", cid, &cat2("Command Identifier: ", &dec(cid)));
    assert(node@.children =~= fabrics(sqe@).node.children);
    parent.push(node);

    info.append(&cat4(" | NVMe-oF ", name, " CID=", &dec(cid)));
}

fn io_opcode_name(opcode: u8) -> (r: &'static str)
    ensures
        r@ == io_opcode(opcode),
{
    match opcode {
        0x00 => "Flush",
        0x01 => "Write",
        0x02 => "Read",
        0x04 => "Write Uncorrectable",
        0x05 => "Compare",
        0x08 => "Write Zeroes",
        0x09 => "Dataset Management",
        0x0d => "Reservation Register",
        0x0e => "Reservation Report",
        _ => "Unknown",
    }
}

fn decode_io_command(sqe: &[u8], info: &mut String, parent: &mut Node)
    requires
        sqe.len() >= 64,
    ensures
        final(info)@ == old(info)@ + io_command(sqe@).info,
        final(parent)@ == with_child(old(parent)@, io_command(sqe@).node),
{
    let opcode = sqe[0];
    let cid = get_le16(sqe, 2) as u64;
    let nsid = get_le32(sqe, 4) as u64;
    let name = io_opcode_name(opcode);

    let mut node = Node::proto(&cat2("NVMe command \u{2014} ", name));
    node.add_num(
        "nvme.cmd.opcode",
        opcode as u64,
        &cat5("Opcode: ", name, " (0x", &hexw(opcode as u64, 2), ")"),
    );
    node.add_num("nvme.cmd.cid", cid, &cat2("Command Identifier: ", &dec(cid)));
    node.add_num("nvme.cmd.nsid", nsid, &cat2("Namespace Identifier: ", &dec(nsid)));

    let mut summary = cat6(" | NVMe ", name, " nsid=", &dec(nsid), " CID=", &dec(cid));

    if opcode == 0x01 || opcode == 0x02 || opcode == 0x04 || opcode == 0x05 || opcode == 0x08 {
        let slba = get_le64(sqe, 40);
        let nlb = get_le16(sqe, 48) as u64 + 1;
        node.add_num("nvme.cmd.slba", slba, &cat2("Starting LBA: ", &dec(slba)));
        node.add_num("nvme.cmd.nlb", nlb, &cat2("Number of Logical Blocks: ", &dec(nlb)));
        summary.append(&cat4(" SLBA=", &dec(slba), " NLB=", &dec(nlb)));
    }
    info.append(&summary);
    assert(node@.children =~= io_command(sqe@).node.children);
    parent.push(node);
}

fn decode_response(cqe: &[u8], info: &mut String, parent: &mut Node)
    requires
        cqe.len() >= 16,
    ensures
        final(info)@ == old(info)@ + response(cqe@).info,
        final(parent)@ == with_child(old(parent)@, response(cqe@).node),
{
    let cid = get_le16(cqe, 12) as u64;
    let status = get_le16(cqe, 14) as u64;
    let phase = status % 2;
    let sc = (status / 2) % 256;
    let sct = (status / 512) % 8;
    let codes = cat4("SCT=", &dec(sct), " SC=0x", &hexw(sc, 2));

    let mut node = Node::proto("NVMe response (CQE)");
    node.add_num("nvme.cqe.cid", cid, &cat2("Command Identifier: ", &dec(cid)));
    node.add_num(
        "nvme.cqe.status",
        status,
        &cat6(
            "Status: 0x",
            &hexw(status, 4),
            " (",
            &codes,
            ", phase=",
            &cat2(&dec(phase), ")"),
        ),
    );
    assert(node@.children =~= response(cqe@).node.children);
    parent.push(node);

    let outcome = if sc == 0 && sct == 0 {
        String::from_str("Success")
    } else {
        codes
    };
    info.append(&cat4(" | NVMe response CID=", &dec(cid), " status=", &outcome));
}

// ---- laws ----

/// Unless asked to, nothing is claimed but a command capsule with the Fabrics
/// opcode, and that always is.
pub proof fn law_only_fabrics_unasked(c: Seq<u8>)
    ensures
        capsule(c, false) is Some <==> c.len() >= 64 && c[0] == 0x7f,
        capsule(c, false) matches Some(k) ==> k.label == "NVMeF"@,
{
}

/// Asking for NVMe decodes more capsules and changes none that was decoded
/// without asking.
pub proof fn law_force_only_adds(c: Seq<u8>)
    ensures
        capsule(c, false) is Some ==> capsule(c, true) == capsule(c, false),
        capsule(c, true) is Some <==> c.len() >= 16,
{
}

/// A Fabrics command shows its type by name and number and its identifier, the
/// little-endian number in bytes 2 and 3.
pub proof fn law_fabrics_command_is_shown(c: Seq<u8>, force: bool)
    requires
        c.len() >= 64,
        c[0] == 0x7f,
    ensures
        ({
            let k = capsule(c, force)->0;
            let cid = c[2] + c[3] * 0x100;
            let name = if c[4] == 0 {
                "Property Set"@
            } else if c[4] == 1 {
                "Connect"@
            } else if c[4] == 4 {
                "Property Get"@
            } else if c[4] == 5 {
                "Authentication Send"@
            } else if c[4] == 6 {
                "Authentication Receive"@
            } else if c[4] == 8 {
                "Disconnect"@
            } else {
                "Unknown"@
            };
            &&& capsule(c, force) is Some
            &&& k.label == "NVMeF"@
            &&& k.info == " | NVMe-oF "@ + name + " CID="@ + dec_text(cid as nat)
            &&& is_layer(k.node, "NVMe over Fabrics \u{2014} "@ + name + " command"@, 3)
            &&& shows_number(k.node, 0, "nvme.cmd.opcode"@, 0x7f, "Opcode: Fabrics (0x7f)"@)
            &&& shows_number(
                k.node,
                1,
                "nvmeof.fctype"@,
                c[4] as int,
                "Fabrics Command Type: "@ + name + " (0x"@ + hex_fixed(c[4] as nat, 2) + ")"@,
            )
            &&& shows_number(
                k.node,
                2,
                "nvme.cmd.cid"@,
                cid,
                "Command Identifier: "@ + dec_text(cid as nat),
            )
        }),
{
}

/// An I/O command shows its opcode by name and number, its identifier and its
/// namespace; a command on blocks also the first block and how many there are,
/// one more than the number in the command.
pub proof fn law_io_command_is_shown(c: Seq<u8>)
    requires
        c.len() >= 64,
        c[0] != 0x7f,
    ensures
        ({
            let k = capsule(c, true)->0;
            let cid = c[2] + c[3] * 0x100;
            let nsid = c[4] + c[5] * 0x100 + c[6] * 0x1_0000 + c[7] * 0x100_0000;
            let slba = le64(c, 40);
            let nlb = c[48] + c[49] * 0x100 + 1;
            let blocks = c[0] == 1 || c[0] == 2 || c[0] == 4 || c[0] == 5 || c[0] == 8;
            let name = if c[0] == 0 {
                "Flush"@
            } else if c[0] == 1 {
                "Write"@
            } else if c[0] == 2 {
                "Read"@
            } else if c[0] == 4 {
                "Write Uncorrectable"@
            } else if c[0] == 5 {
                "Compare"@
            } else if c[0] == 8 {
                "Write Zeroes"@
            } else if c[0] == 9 {
                "Dataset Management"@
            } else if c[0] == 13 {
                "Reservation Register"@
            } else if c[0] == 14 {
                "Reservation Report"@
            } else {
                "Unknown"@
            };
            let head = " | NVMe "@ + name + " nsid="@ + dec_text(nsid as nat) + " CID="@ + dec_text(
                cid as nat,
            );
            &&& capsule(c, true) is Some
            &&& k.label == "NVMe"@
            &&& k.info == if blocks {
                head + (" SLBA="@ + dec_text(slba) + " NLB="@ + dec_text(nlb as nat))
            } else {
                head
            }
            &&& is_layer(
                k.node,
                "NVMe command \u{2014} "@ + name,
                if blocks {
                    5
                } else {
                    3
                },
            )
            &&& shows_number(
                k.node,
                0,
                "nvme.cmd.opcode"@,
                c[0] as int,
                "Opcode: "@ + name + " (0x"@ + hex_fixed(c[0] as nat, 2) + ")"@,
            )
            &&& shows_number(
                k.node,
                1,
                "nvme.cmd.cid"@,
                cid,
                "Command Identifier: "@ + dec_text(cid as nat),
            )
            &&& shows_number(
                k.node,
                2,
                "nvme.cmd.nsid"@,
                nsid,
                "Namespace Identifier: "@ + dec_text(nsid as nat),
            )
            &&& blocks ==> shows_number(
                k.node,
                3,
                "nvme.cmd.slba"@,
                slba as int,
                "Starting LBA: "@ + dec_text(slba),
            )
            &&& blocks ==> shows_number(
                k.node,
                4,
                "nvme.cmd.nlb"@,
                nlb,
                "Number of Logical Blocks: "@ + dec_text(nlb as nat),
            )
        }),
{
}

/// A completion shows the identifier of its command and its status: success
/// where status code and type are both 0, else both.
pub proof fn law_completion_is_shown(c: Seq<u8>)
    requires
        16 <= c.len() < 64,
    ensures
        ({
            let k = capsule(c, true)->0;
            let cid = c[12] + c[13] * 0x100;
            let status = c[14] + c[15] * 0x100;
            let sc = (status / 2) % 0x100;
            let sct = (status / 0x200) % 8;
            let codes = "SCT="@ + dec_text(sct as nat) + " SC=0x"@ + hex_fixed(sc as nat, 2);
            &&& capsule(c, true) is Some
            &&& k.label == "NVMe"@
            &&& sc == 0 && sct == 0 ==> k.info == " | NVMe response CID="@ + dec_text(cid as nat)
                + " status="@ + "Success"@
            &&& sc != 0 || sct != 0 ==> k.info == " | NVMe response CID="@ + dec_text(cid as nat)
                + " status="@ + codes
            &&& is_layer(k.node, "NVMe response (CQE)"@, 2)
            &&& shows_number(
                k.node,
                0,
                "nvme.cqe.cid"@,
                cid,
                "Command Identifier: "@ + dec_text(cid as nat),
            )
            &&& shows_number(
                k.node,
                1,
                "nvme.cqe.status"@,
                status,
                "Status: 0x"@ + hex_fixed(status as nat, 4) + " ("@ + codes + ", phase="@ + (
                dec_text((status % 2) as nat) + ")"@),
            )
        }),
{
}

} // verus!
