use vstd::prelude::*;

use crate::logic_gate::{GateModel, LogicGateMode};
use crate::logic_unit::{InputModel, LogicUnit, Output, UnitModel};
use crate::utils::{Id, SignalName};
use crate::table_parser::{digits_value, is_digit};
use vstd::utf8::encode_utf8;

verus! {

/// One statement of the Graphviz drawing of a unit.
#[derive(Debug, Clone, Copy, PartialEq, Eq, Structural)]
pub enum DotLine {
    /// The box of an input.
    InputNode(SignalName),
    /// An edge from an input to a gate it drives.
    InputEdge(SignalName, Id),
    /// The circle of a gate: its id, its mode, and whether it is active.
    GateNode(Id, LogicGateMode, bool),
    /// An edge from a gate to one of its children.
    GateEdge(Id, Id),
    /// The box of an output.
    OutputNode(SignalName),
    /// An edge into an output, from its gate.
    OutputEdge(Id, SignalName),
}

/// The statements for an input: its box, then an edge to each gate it drives, in order.
pub open spec fn input_dot(i: InputModel) -> Seq<DotLine> {
    seq![DotLine::InputNode(i.name)] + i.ids.map_values(|t: Id| DotLine::InputEdge(i.name, t))
}

/// The statements for a gate: its circle, then an edge to each child, in order.
pub open spec fn gate_dot(g: GateModel) -> Seq<DotLine> {
    seq![DotLine::GateNode(g.id, g.mode, g.active)] + g.children.map_values(|c: Id| DotLine::GateEdge(g.id, c))
}

/// The statements for an output: its box, then the edge from its gate.
pub open spec fn output_dot(o: Output) -> Seq<DotLine> {
    seq![DotLine::OutputNode(o.name), DotLine::OutputEdge(o.id, o.name)]
}

/// The statements for the first `n` inputs, in order.
pub open spec fn inputs_dot(ins: Seq<InputModel>, n: int) -> Seq<DotLine>
    decreases n,
{
    if n <= 0 {
        Seq::empty()
    } else {
        inputs_dot(ins, n - 1) + input_dot(ins[n - 1])
    }
}

/// The statements for the first `n` gates, in order.
pub open spec fn gates_dot(gs: Seq<GateModel>, n: int) -> Seq<DotLine>
    decreases n,
{
    if n <= 0 {
        Seq::empty()
    } else {
        gates_dot(gs, n - 1) + gate_dot(gs[n - 1])
    }
}

/// The statements for the first `n` outputs, in order.
pub open spec fn outputs_dot(outs: Seq<Output>, n: int) -> Seq<DotLine>
    decreases n,
{
    if n <= 0 {
        Seq::empty()
    } else {
        outputs_dot(outs, n - 1) + output_dot(outs[n - 1])
    }
}

/// The drawing of a unit: the inputs, then the gates, then the outputs, each in order.
pub open spec fn dot_model(u: UnitModel) -> Seq<DotLine> {
    inputs_dot(u.inputs, u.inputs.len() as int) + gates_dot(u.gates, u.gates.len() as int) + outputs_dot(
        u.outputs,
        u.outputs.len() as int,
    )
}

impl LogicUnit {
    /// The statements of the Graphviz drawing of the unit (`save_dot` writes them out).
    pub fn dot_lines(&self) -> (r: Vec<DotLine>)
        ensures
            r@ == dot_model(self@),
    {
        let mut r: Vec<DotLine> = Vec::new();
        let ghost u = self@;
        let mut i: usize = 0;
        while i < self.io.inputs.len()
            invariant
                u == self@,
                i <= u.inputs.len(),
                r@ == inputs_dot(u.inputs, i as int),
            decreases u.inputs.len() - i,
        {
            let input = &self.io.inputs[i];
            let name = input.name;
            let ghost before = r@;
            proof {
                assert(u.inputs[i as int] == input@);
            }
            r.push(DotLine::InputNode(name));
            let mut k: usize = 0;
            while k < input.ids.len()
                invariant
                    k <= input.ids@.len(),
                    r@ == before + seq![DotLine::InputNode(name)] + input.ids@.take(k as int).map_values(
                        |t: Id| DotLine::InputEdge(name, t),
                    ),
                decreases input.ids@.len() - k,
            {
                r.push(DotLine::InputEdge(name, input.ids[k]));
                proof {
                    assert(input.ids@.take(k + 1).map_values(|t: Id| DotLine::InputEdge(name, t)) =~= input.ids@.take(
                        k as int,
                    ).map_values(|t: Id| DotLine::InputEdge(name, t)).push(DotLine::InputEdge(name, input.ids@[k as int])));
                }
                k += 1;
            }
            proof {
                assert(input.ids@.take(k as int) =~= input.ids@);
                assert(r@ =~= before + input_dot(u.inputs[i as int]));
            }
            i += 1;
        }
        let mut j: usize = 0;
        while j < self.gates.len()
            invariant
                u == self@,
                j <= u.gates.len(),
                r@ == inputs_dot(u.inputs, u.inputs.len() as int) + gates_dot(u.gates, j as int),
            decreases u.gates.len() - j,
        {
            let gate = &self.gates[j];
            let id = gate.id;
            let ghost before = r@;
            proof {
                assert(u.gates[j as int] == gate@);
            }
            r.push(DotLine::GateNode(id, gate.mode, gate.active));
            let mut k: usize = 0;
            while k < gate.children.len()
                invariant
                    k <= gate.children@.len(),
                    r@ == before + seq![DotLine::GateNode(id, gate.mode, gate.active)] + gate.children@.take(
                        k as int,
                    ).map_values(|c: Id| DotLine::GateEdge(id, c)),
                decreases gate.children@.len() - k,
            {
                r.push(DotLine::GateEdge(id, gate.children[k]));
                proof {
                    assert(gate.children@.take(k + 1).map_values(|c: Id| DotLine::GateEdge(id, c)) =~= gate.children@.take(
                        k as int,
                    ).map_values(|c: Id| DotLine::GateEdge(id, c)).push(DotLine::GateEdge(id, gate.children@[k as int])));
                }
                k += 1;
            }
            proof {
                assert(gate.children@.take(k as int) =~= gate.children@);
                assert(r@ =~= before + gate_dot(u.gates[j as int]));
            }
            j += 1;
        }
        let mut m: usize = 0;
        while m < self.io.outputs.len()
            invariant
                u == self@,
                m <= u.outputs.len(),
                r@ == inputs_dot(u.inputs, u.inputs.len() as int) + gates_dot(u.gates, u.gates.len() as int)
                    + outputs_dot(u.outputs, m as int),
            decreases u.outputs.len() - m,
        {
            let o = self.io.outputs[m];
            let ghost before = r@;
            r.push(DotLine::OutputNode(o.name));
            r.push(DotLine::OutputEdge(o.id, o.name));
            proof {
                assert(r@ =~= before + output_dot(u.outputs[m as int]));
            }
            m += 1;
        }
        r
    }
}


// ---------------------------------------------------------------------------
// The drawing as text

/// The decimal digits of `n`, most significant first.
pub open spec fn decimal(n: nat) -> Seq<u8>
    decreases n,
{
    if n < 10 {
        seq![(48 + n) as u8]
    } else {
        decimal(n / 10).push((48 + n % 10) as u8)
    }
}

/// The digits written for a number are its decimal representation: decimal digits only,
/// no leading zero, and read back in base 10 they give the number.
pub proof fn law_decimal_reads_back(n: nat)
    ensures
        decimal(n).len() > 0,
        forall|i: int| 0 <= i < decimal(n).len() ==> is_digit(#[trigger] decimal(n)[i]),
        n > 0 ==> decimal(n)[0] != 48,
        digits_value(decimal(n)) == n,
    decreases n,
{
    if n >= 10 {
        law_decimal_reads_back(n / 10);
        let s = decimal(n / 10);
        let d = (48 + n % 10) as u8;
        assert(decimal(n) == s.push(d));
        assert(s.push(d).drop_last() =~= s);
        assert(decimal(n)[0] == s[0]);
        assert(d as int - 48 == n % 10);
        assert(digits_value(s.push(d)) == 10 * digits_value(s) + (d - 48));
        assert(n == 10 * (n / 10) + n % 10);
        assert forall|i: int| 0 <= i < decimal(n).len() implies is_digit(#[trigger] decimal(n)[i]) by {
            if i < s.len() {
                assert(decimal(n)[i] == s[i]);
            }
        }
    } else {
        let t = seq![(48 + n) as u8];
        assert(t.drop_last() =~= Seq::<u8>::empty());
        assert(digits_value(t) == 10 * digits_value(t.drop_last()) + (t.last() - 48));
    }
}

/// The UTF-8 bytes of `s`.
pub open spec fn text(s: &str) -> Seq<u8> {
    encode_utf8(s@)
}

/// A signal name as text: its letter, then its bit index.
pub open spec fn name_text(n: SignalName) -> Seq<u8> {
    encode_utf8(seq![n.0]) + decimal(n.1 as nat)
}

/// The name of a gate mode.
pub open spec fn mode_text(m: LogicGateMode) -> Seq<u8> {
    match m {
        LogicGateMode::And => text("AND"),
        LogicGateMode::Or => text("OR"),
        LogicGateMode::Xor => text("XOR"),
        LogicGateMode::Nand => text("NAND"),
        LogicGateMode::Nor => text("NOR"),
        LogicGateMode::Xnor => text("XNOR"),
    }
}

/// The fill color of a gate: light green when active, light gray otherwise.
pub open spec fn fill_text(a: bool) -> Seq<u8> {
    if a {
        text("lightgreen")
    } else {
        text("lightgray")
    }
}

/// One statement of the drawing as a line of Graphviz text.
pub open spec fn line_text(l: DotLine) -> Seq<u8> {
    match l {
        DotLine::InputNode(n) => text("    in_") + name_text(n) + text(" [label=\"") + name_text(n) + text(
            "\", shape=box, style=filled, fillcolor=lightblue];\n",
        ),
        DotLine::InputEdge(n, t) => text("    in_") + name_text(n) + text(" -> node_") + decimal(t as nat) + text(
            ";\n",
        ),
        DotLine::GateNode(id, m, a) => text("    node_") + decimal(id as nat) + text(" [label=\"") + mode_text(m)
            + text("_") + decimal(id as nat) + text("\", shape=circle, style=filled, fillcolor=") + fill_text(a)
            + text("];\n"),
        DotLine::GateEdge(id, c) => text("    node_") + decimal(id as nat) + text(" -> node_") + decimal(c as nat)
            + text(";\n"),
        DotLine::OutputNode(n) => text("    out_") + name_text(n) + text(" [label=\"") + name_text(n) + text(
            "\", shape=box, style=filled, fillcolor=lightyellow];\n",
        ),
        DotLine::OutputEdge(id, n) => text("    node_") + decimal(id as nat) + text(" -> out_") + name_text(n) + text(
            ";\n",
        ),
    }
}

/// The lines of the statements `ls`, one after the other.
pub open spec fn lines_text(ls: Seq<DotLine>) -> Seq<u8>
    decreases ls.len(),
{
    if ls.len() == 0 {
        Seq::empty()
    } else {
        lines_text(ls.drop_last()) + line_text(ls.last())
    }
}

/// The Graphviz text of the drawing of a unit.
pub open spec fn dot_bytes(u: UnitModel) -> Seq<u8> {
    text("digraph LogicUnit {\n    rankdir=LR;\n") + lines_text(dot_model(u)) + text("}\n")
}

/// Appends the UTF-8 bytes of `s`.
fn push_text(out: &mut Vec<u8>, s: &str)
    ensures
        final(out)@ == old(out)@ + text(s),
{
    let b = s.as_bytes();
    let ghost start = out@;
    let mut i: usize = 0;
    while i < b.len()
        invariant
            i <= b@.len(),
            b@ == text(s),
            out@ == start + b@.take(i as int),
        decreases b@.len() - i,
    {
        out.push(b[i]);
        proof {
            assert(b@.take(i + 1) =~= b@.take(i as int).push(b@[i as int]));
        }
        i += 1;
    }
    proof {
        assert(b@.take(i as int) =~= b@);
    }
}

/// Appends the decimal digits of `n`.
fn push_decimal(out: &mut Vec<u8>, n: u32)
    ensures
        final(out)@ == old(out)@ + decimal(n as nat),
    decreases n,
{
    let ghost start = out@;
    if n >= 10 {
        push_decimal(out, n / 10);
    }
    out.push((48 + n % 10) as u8);
    proof {
        if n >= 10 {
            assert(out@ =~= start + decimal((n / 10) as nat).push((48 + n % 10) as u8));
        } else {
            assert(out@ =~= start + seq![(48 + n) as u8]);
        }
    }
}

/// Appends the UTF-8 bytes of `c`.
fn push_char(out: &mut Vec<u8>, c: char)
    ensures
        final(out)@ == old(out)@ + encode_utf8(seq![c]),
{
    let ghost start = out@;
    let v = c as u32;
    proof {
        assert(encode_utf8(seq![c]) =~= vstd::utf8::encode_scalar(v) + encode_utf8(seq![c].drop_first()));
        assert(seq![c].drop_first() =~= Seq::<char>::empty());
        assert(encode_utf8(seq![c]) =~= vstd::utf8::encode_scalar(v));
    }
    if v <= 0x7F {
        out.push((v & 0x7F) as u8);
    } else if v <= 0x7FF {
        out.push(0xC0 | ((v >> 6) & 0x1F) as u8);
        out.push(0x80 | (v & 0x3F) as u8);
    } else if v <= 0xFFFF {
        out.push(0xE0 | ((v >> 12) & 0x0F) as u8);
        out.push(0x80 | ((v >> 6) & 0x3F) as u8);
        out.push(0x80 | (v & 0x3F) as u8);
    } else {
        out.push(0xF0 | ((v >> 18) & 0x7) as u8);
        out.push(0x80 | ((v >> 12) & 0x3F) as u8);
        out.push(0x80 | ((v >> 6) & 0x3F) as u8);
        out.push(0x80 | (v & 0x3F) as u8);
    }
    proof {
        assert(out@ =~= start + vstd::utf8::encode_scalar(v));
    }
}

/// Appends a signal name.
fn push_name(out: &mut Vec<u8>, n: SignalName)
    ensures
        final(out)@ == old(out)@ + name_text(n),
{
    let ghost start = out@;
    push_char(out, n.0);
    push_decimal(out, n.1 as u32);
    proof {
        assert(out@ =~= start + name_text(n));
    }
}

/// Appends the name of a gate mode.
fn push_mode(out: &mut Vec<u8>, m: LogicGateMode)
    ensures
        final(out)@ == old(out)@ + mode_text(m),
{
    match m {
        LogicGateMode::And => push_text(out, "AND"),
        LogicGateMode::Or => push_text(out, "OR"),
        LogicGateMode::Xor => push_text(out, "XOR"),
        LogicGateMode::Nand => push_text(out, "NAND"),
        LogicGateMode::Nor => push_text(out, "NOR"),
        LogicGateMode::Xnor => push_text(out, "XNOR"),
    }
}

/// Appends the line of an input's box.
fn push_input_node(out: &mut Vec<u8>, n: SignalName)
    ensures
        final(out)@ == old(out)@ + line_text(DotLine::InputNode(n)),
{
    let ghost start = out@;
    push_text(out, "    in_");
    push_name(out, n);
    push_text(out, " [label=\"");
    push_name(out, n);
    push_text(out, "\", shape=box, style=filled, fillcolor=lightblue];\n");
    proof {
        assert(out@ =~= start + line_text(DotLine::InputNode(n)));
    }
}

/// Appends the line of an edge from an input.
fn push_input_edge(out: &mut Vec<u8>, n: SignalName, t: Id)
    ensures
        final(out)@ == old(out)@ + line_text(DotLine::InputEdge(n, t)),
{
    let ghost start = out@;
    push_text(out, "    in_");
    push_name(out, n);
    push_text(out, " -> node_");
    push_decimal(out, t);
    push_text(out, ";\n");
    proof {
        assert(out@ =~= start + line_text(DotLine::InputEdge(n, t)));
    }
}

/// Appends the fill color of a gate.
fn push_fill(out: &mut Vec<u8>, a: bool)
    ensures
        final(out)@ == old(out)@ + fill_text(a),
{
    if a {
        push_text(out, "lightgreen");
    } else {
        push_text(out, "lightgray");
    }
}

/// Appends the line of a gate's circle.
#[verifier::rlimit(40)]
fn push_gate_node(out: &mut Vec<u8>, id: Id, m: LogicGateMode, a: bool)
    ensures
        final(out)@ == old(out)@ + line_text(DotLine::GateNode(id, m, a)),
{
    let ghost start = out@;
    let ghost d = decimal(id as nat);
    push_text(out, "    node_");
    push_decimal(out, id);
    push_text(out, " [label=\"");
    let ghost s1 = out@;
    assert(s1 == start + text("    node_") + d + text(" [label=\""));
    push_mode(out, m);
    push_text(out, "_");
    push_decimal(out, id);
    push_text(out, "\", shape=circle, style=filled, fillcolor=");
    let ghost s2 = out@;
    assert(s2 == s1 + mode_text(m) + text("_") + d + text("\", shape=circle, style=filled, fillcolor="));
    push_fill(out, a);
    push_text(out, "];\n");
    proof {
        assert(out@ == s2 + fill_text(a) + text("];\n"));
        assert(line_text(DotLine::GateNode(id, m, a)) == text("    node_") + d + text(" [label=\"") + mode_text(m)
            + text("_") + d + text("\", shape=circle, style=filled, fillcolor=") + fill_text(a) + text("];\n"));
        assert(out@ =~= start + line_text(DotLine::GateNode(id, m, a)));
    }
}

/// Appends the line of an edge between gates.
fn push_gate_edge(out: &mut Vec<u8>, id: Id, c: Id)
    ensures
        final(out)@ == old(out)@ + line_text(DotLine::GateEdge(id, c)),
{
    let ghost start = out@;
    push_text(out, "    node_");
    push_decimal(out, id);
    push_text(out, " -> node_");
    push_decimal(out, c);
    push_text(out, ";\n");
    proof {
        assert(out@ =~= start + line_text(DotLine::GateEdge(id, c)));
    }
}

/// Appends the line of an output's box.
fn push_output_node(out: &mut Vec<u8>, n: SignalName)
    ensures
        final(out)@ == old(out)@ + line_text(DotLine::OutputNode(n)),
{
    let ghost start = out@;
    push_text(out, "    out_");
    push_name(out, n);
    push_text(out, " [label=\"");
    push_name(out, n);
    push_text(out, "\", shape=box, style=filled, fillcolor=lightyellow];\n");
    proof {
        assert(out@ =~= start + line_text(DotLine::OutputNode(n)));
    }
}

/// Appends the line of an edge into an output.
fn push_output_edge(out: &mut Vec<u8>, id: Id, n: SignalName)
    ensures
        final(out)@ == old(out)@ + line_text(DotLine::OutputEdge(id, n)),
{
    let ghost start = out@;
    push_text(out, "    node_");
    push_decimal(out, id);
    push_text(out, " -> out_");
    push_name(out, n);
    push_text(out, ";\n");
    proof {
        assert(out@ =~= start + line_text(DotLine::OutputEdge(id, n)));
    }
}

/// Appends the line of one statement.
fn push_line(out: &mut Vec<u8>, l: DotLine)
    ensures
        final(out)@ == old(out)@ + line_text(l),
{
    match l {
        DotLine::InputNode(n) => push_input_node(out, n),
        DotLine::InputEdge(n, t) => push_input_edge(out, n, t),
        DotLine::GateNode(id, m, a) => push_gate_node(out, id, m, a),
        DotLine::GateEdge(id, c) => push_gate_edge(out, id, c),
        DotLine::OutputNode(n) => push_output_node(out, n),
        DotLine::OutputEdge(id, n) => push_output_edge(out, id, n),
    }
}

impl LogicUnit {
    /// The Graphviz text of the unit's drawing (`save_dot` writes it to a file).
    pub fn dot_text(&self) -> (r: Vec<u8>)
        ensures
            r@ == dot_bytes(self@),
    {
        let lines = self.dot_lines();
        let mut out: Vec<u8> = Vec::new();
        push_text(&mut out, "digraph LogicUnit {\n    rankdir=LR;\n");
        let ghost head = out@;
        let mut i: usize = 0;
        while i < lines.len()
            invariant
                i <= lines@.len(),
                out@ == head + lines_text(lines@.take(i as int)),
            decreases lines@.len() - i,
        {
            let ghost before = out@;
            push_line(&mut out, lines[i]);
            proof {
                assert(lines@.take(i + 1).drop_last() =~= lines@.take(i as int));
                assert(out@ =~= head + lines_text(lines@.take(i + 1)));
            }
            i += 1;
        }
        push_text(&mut out, "}\n");
        proof {
            assert(lines@.take(i as int) =~= lines@);
            assert(out@ =~= dot_bytes(self@));
        }
        out
    }
}

} // verus!
