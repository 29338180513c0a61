//! The textual report of a finished calculation.
//!
//! ```text
//! Article Name: <decoded origin>
//! 1-Hop Neighbors (<n1>):
//! 	<decoded endpoint>
//! Known Redirects (<r>):
//! 	<decoded source> -> <decoded target>
//! ```
//!
//! A name that does not decode is written as it stands.

use vstd::prelude::*;

use crate::url::{decode_url_str, decoded, push_char};

verus! {

/// The character of a decimal digit.
pub open spec fn digit_char(d: int) -> char {
    ((d + 48) as u8) as char
}

/// The decimal notation of a natural number.
pub open spec fn decimal(n: nat) -> Seq<char>
    decreases n,
{
    if n < 10 {
        seq![digit_char(n as int)]
    } else {
        decimal(n / 10).push(digit_char((n % 10) as int))
    }
}

/// How an endpoint is shown: decoded, or as it stands if it does not decode.
pub open spec fn display_name(e: Seq<char>) -> Seq<char> {
    match decoded(e) {
        Ok(t) => t,
        Err(_) => e,
    }
}

/// The name of the origin: the first member of layer 0, or nothing.
pub open spec fn origin_of(layers: Seq<Seq<Seq<char>>>) -> Seq<char> {
    if layers.len() > 0 && layers[0].len() > 0 {
        layers[0][0]
    } else {
        Seq::empty()
    }
}

pub open spec fn origin_line(name: Seq<char>) -> Seq<char> {
    "Article Name: "@ + display_name(name) + "\n"@
}

/// One indented line per member.
pub open spec fn member_lines(members: Seq<Seq<char>>) -> Seq<char>
    decreases members.len(),
{
    if members.len() == 0 {
        Seq::empty()
    } else {
        member_lines(members.drop_last()) + "\t"@ + display_name(members.last()) + "\n"@
    }
}

/// The heading of layer `i` and its members.
pub open spec fn layer_block(i: nat, members: Seq<Seq<char>>) -> Seq<char> {
    decimal(i) + "-Hop Neighbors ("@ + decimal(members.len()) + "):\n"@ + member_lines(members)
}

/// The blocks of layers `1 .. n`.
pub open spec fn layer_blocks(layers: Seq<Seq<Seq<char>>>, n: nat) -> Seq<char>
    decreases n,
{
    if n <= 1 {
        Seq::empty()
    } else {
        layer_blocks(layers, (n - 1) as nat) + layer_block((n - 1) as nat, layers[n - 1])
    }
}

/// The line of one redirect.
pub open spec fn redirect_line(source: Seq<char>, target: Seq<char>) -> Seq<char> {
    "\t"@ + display_name(source) + " -> "@ + display_name(target) + "\n"@
}

/// One indented line per redirect.
pub open spec fn redirect_lines(rs: Seq<(Seq<char>, Seq<char>)>) -> Seq<char>
    decreases rs.len(),
{
    if rs.len() == 0 {
        Seq::empty()
    } else {
        redirect_lines(rs.drop_last()) + redirect_line(rs.last().0, rs.last().1)
    }
}

/// The whole report over listed layers and redirects.
pub open spec fn report_text(
    layers: Seq<Seq<Seq<char>>>,
    redirects: Seq<(Seq<char>, Seq<char>)>,
) -> Seq<char> {
    origin_line(origin_of(layers)) + layer_blocks(layers, layers.len()) + "Known Redirects ("@
        + decimal(redirects.len()) + "):\n"@ + redirect_lines(redirects)
}

pub open spec fn names_view(v: Seq<String>) -> Seq<Seq<char>> {
    v.map_values(|e: String| e@)
}

pub open spec fn layers_view(v: Seq<Vec<String>>) -> Seq<Seq<Seq<char>>> {
    v.map_values(|l: Vec<String>| names_view(l@))
}

pub open spec fn pairs_view(v: Seq<(String, String)>) -> Seq<(Seq<char>, Seq<char>)> {
    v.map_values(|p: (String, String)| (p.0@, p.1@))
}

/// The report of an origin with no neighbours and no redirects: the origin
/// line, the heading of layer 1 with a count of 0 and no member lines, and an
/// empty redirect table.
pub proof fn lemma_report_of_lone_origin(origin: Seq<char>)
    ensures
        report_text(seq![seq![origin], Seq::empty()], Seq::empty()) == "Article Name: "@
            + display_name(origin) + "\n"@ + seq!['1'] + "-Hop Neighbors ("@ + seq!['0']
            + "):\n"@ + "Known Redirects ("@ + seq!['0'] + "):\n"@,
{
    let ls: Seq<Seq<Seq<char>>> = seq![seq![origin], Seq::empty()];
    assert(origin_of(ls) == origin);
    assert(digit_char(1) == '1');
    assert(digit_char(0) == '0');
    assert(decimal(1) =~= seq!['1']);
    assert(decimal(0) =~= seq!['0']);
    assert(ls[1].len() == 0);
    assert(member_lines(ls[1]) =~= Seq::<char>::empty());
    assert(layer_blocks(ls, 1) =~= Seq::<char>::empty());
    assert(layer_blocks(ls, 2) =~= layer_block(1, ls[1]));
    assert(redirect_lines(Seq::empty()) =~= Seq::<char>::empty());
    assert(report_text(ls, Seq::empty()) =~= "Article Name: "@ + display_name(origin) + "\n"@ + seq![
        '1',
    ] + "-Hop Neighbors ("@ + seq!['0'] + "):\n"@ + "Known Redirects ("@ + seq!['0'] + "):\n"@);
}

/// The decimal notation of `n`.
pub fn decimal_string(n: usize) -> (r: String)
    ensures
        r@ == decimal(n as nat),
    decreases n,
{
    let mut s = if n < 10 {
        String::new()
    } else {
        decimal_string(n / 10)
    };
    let d: u8 = (n % 10) as u8;
    push_digit(&mut s, d);
    proof {
        if n < 10 {
            assert(s@ =~= seq![digit_char(n as int)]);
        }
    }
    s
}

fn push_digit(s: &mut String, d: u8)
    requires
        d < 10,
    ensures
        final(s)@ == old(s)@.push(digit_char(d as int)),
{
    let c = (d + 48) as char;
    push_char(s, c);
}

/// How an endpoint is shown.
pub fn display_endpoint(e: &str) -> (r: String)
    ensures
        r@ == display_name(e@),
{
    match decode_url_str(e) {
        Ok(t) => t,
        Err(_) => e.to_owned(),
    }
}

/// Renders the report of listed layers (layer 0 first) and redirects.
pub fn render_report(layers: &Vec<Vec<String>>, redirects: &Vec<(String, String)>) -> (r: String)
    ensures
        r@ == report_text(layers_view(layers@), pairs_view(redirects@)),
{
    let ghost ls = layers_view(layers@);
    let ghost rs = pairs_view(redirects@);
    let mut out = String::new();

    let name: &str = if layers.len() > 0 && layers[0].len() > 0 {
        layers[0][0].as_str()
    } else {
        ""
    };
    proof {
        if !(layers@.len() > 0 && layers@[0]@.len() > 0) {
            reveal_strlit("");
            assert(name@ =~= Seq::<char>::empty());
        }
    }
    out.append("Article Name: ");
    let shown = display_endpoint(name);
    out.append(shown.as_str());
    out.append("\n");
    assert(out@ =~= origin_line(origin_of(ls)));

    let mut i: usize = 1;
    while i < layers.len()
        invariant
            1 <= i,
            i <= layers@.len() || (layers@.len() == 0 && i == 1),
            ls == layers_view(layers@),
            out@ == origin_line(origin_of(ls)) + layer_blocks(ls, i as nat),
        decreases layers.len() - i,
    {
        let block = render_layer(i, &layers[i]);
        out.append(block.as_str());
        proof {
            assert(layer_blocks(ls, (i + 1) as nat) == layer_blocks(ls, i as nat) + layer_block(
                i as nat,
                ls[i as int],
            ));
        }
        assert(out@ =~= origin_line(origin_of(ls)) + layer_blocks(ls, (i + 1) as nat));
        i = i + 1;
    }
    proof {
        if layers@.len() == 0 {
            assert(layer_blocks(ls, 1) == layer_blocks(ls, 0));
        }
        assert(ls.len() == layers@.len());
        assert(layer_blocks(ls, i as nat) == layer_blocks(ls, ls.len()));
    }

    out.append("Known Redirects (");
    let count = decimal_string(redirects.len());
    out.append(count.as_str());
    out.append("):\n");
    let ghost head = out@;
    assert(head =~= origin_line(origin_of(ls)) + layer_blocks(ls, ls.len()) + "Known Redirects ("@
        + decimal(rs.len()) + "):\n"@);
    assert(redirect_lines(rs.take(0)) =~= Seq::<char>::empty());
    let mut k: usize = 0;
    while k < redirects.len()
        invariant
            k <= redirects@.len(),
            rs == pairs_view(redirects@),
            out@ == head + redirect_lines(rs.take(k as int)),
        decreases redirects.len() - k,
    {
        let (link, target) = &redirects[k];
        let line = render_redirect(link, target);
        out.append(line.as_str());
        proof {
            let t = rs.take(k + 1);
            assert(t.drop_last() =~= rs.take(k as int));
            assert(t.last() == (link@, target@));
            assert(redirect_lines(t) == redirect_lines(rs.take(k as int)) + redirect_line(
                link@,
                target@,
            ));
        }
        assert(out@ =~= head + redirect_lines(rs.take(k + 1)));
        k = k + 1;
    }
    assert(rs.take(rs.len() as int) =~= rs);
    assert(out@ =~= report_text(ls, rs));
    out
}

/// The line of one redirect.
fn render_redirect(link: &String, target: &String) -> (r: String)
    ensures
        r@ == redirect_line(link@, target@),
{
    let mut out = String::new();
    out.append("\t");
    let shown = display_endpoint(link.as_str());
    out.append(shown.as_str());
    out.append(" -> ");
    let shown = display_endpoint(target.as_str());
    out.append(shown.as_str());
    out.append("\n");
    assert(out@ =~= redirect_line(link@, target@));
    out
}

/// The heading of layer `i` and one line per member.
fn render_layer(i: usize, members: &Vec<String>) -> (r: String)
    ensures
        r@ == layer_block(i as nat, names_view(members@)),
{
    let ghost ms = names_view(members@);
    let mut out = decimal_string(i);
    out.append("-Hop Neighbors (");
    let count = decimal_string(members.len());
    out.append(count.as_str());
    out.append("):\n");
    let ghost head = out@;
    let mut k: usize = 0;
    while k < members.len()
        invariant
            k <= members@.len(),
            ms == names_view(members@),
            out@ == head + member_lines(ms.take(k as int)),
        decreases members.len() - k,
    {
        out.append("\t");
        let shown = display_endpoint(members[k].as_str());
        out.append(shown.as_str());
        out.append("\n");
        proof {
            assert(ms.take(k + 1).drop_last() =~= ms.take(k as int));
        }
        assert(out@ =~= head + member_lines(ms.take(k + 1)));
        k = k + 1;
    }
    assert(ms.take(ms.len() as int) =~= ms);
    out
}

} // verus!
