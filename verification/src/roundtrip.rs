//! Reading back what `Graph::export` writes.

use vstd::prelude::*;

use crate::graph::{ImportError, graph_shape, graph_text, parse_arc, parse_arcs, parse_graph, parse_line, parse_lines};
use crate::text::{dec_int, dec_nat, is_digit, is_white, join, pieces_avoid};
use crate::vertex::{Arc, Vertex, arc_text, vertex_text};

verus! {

/// Every character of the text is a digit, a `-`, or a `,`.
spec fn arc_chars(s: Seq<char>) -> bool {
    forall|j: int| 0 <= j < s.len() ==> is_digit(#[trigger] s[j]) || s[j] == '-' || s[j] == ','
}

proof fn lemma_dec_int_shape(x: int)
    ensures
        dec_int(x).len() > 0,
        is_digit(dec_int(x).last()),
        forall|j: int| 0 <= j < dec_int(x).len() ==> is_digit(#[trigger] dec_int(x)[j]) || dec_int(x)[j] == '-',
{
    if x < 0 {
        crate::text::lemma_dec_nat_digits((-x) as nat);
        let s = dec_int(x);
        assert forall|j: int| 0 <= j < s.len() implies is_digit(#[trigger] s[j]) || s[j] == '-' by {
            if j > 0 {
                assert(s[j] == dec_nat((-x) as nat)[j - 1]);
            }
        }
        assert(s.last() == dec_nat((-x) as nat).last());
    } else {
        crate::text::lemma_dec_nat_digits(x as nat);
    }
}

proof fn lemma_arc_text_shape(a: Arc)
    ensures
        arc_text(a).len() > 0,
        is_digit(arc_text(a)[0]),
        is_digit(arc_text(a).last()),
        arc_chars(arc_text(a)),
        crate::text::split(arc_text(a), ',') == seq![dec_nat(a.to as nat), dec_int(a.distance as int)],
{
    let t = dec_nat(a.to as nat);
    let d = dec_int(a.distance as int);
    crate::text::lemma_dec_nat_digits(a.to as nat);
    lemma_dec_int_shape(a.distance as int);
    let s = arc_text(a);
    assert(s == t + seq![','] + d);
    assert(s[0] == t[0]);
    assert(s.last() == d.last());
    assert forall|j: int| 0 <= j < s.len() implies is_digit(#[trigger] s[j]) || s[j] == '-' || s[j] == ',' by {
        if j < t.len() {
            assert(s[j] == t[j]);
        } else if j > t.len() {
            assert(s[j] == d[j - t.len() - 1]);
        }
    }
    assert forall|j: int| 0 <= j < t.len() implies #[trigger] t[j] != ',' by {
        assert(is_digit(t[j]));
    }
    assert forall|j: int| 0 <= j < d.len() implies #[trigger] d[j] != ',' by {
        assert(is_digit(d[j]) || d[j] == '-');
    }
    crate::text::lemma_split_none(t, ',');
    crate::text::lemma_split_none(d, ',');
    crate::text::lemma_split_concat(t, d, ',');
}

proof fn lemma_digit_not_white(c: char)
    requires
        is_digit(c),
    ensures
        !is_white(c),
        c != ' ',
        c != ',',
        c != '\n',
        c != '\r',
        c != '-',
{
}

proof fn lemma_parse_arc_text(a: Arc)
    ensures
        parse_arc(arc_text(a)) == Ok::<Option<Arc>, ImportError>(Some(a)),
{
    lemma_arc_text_shape(a);
    let s = arc_text(a);
    lemma_digit_not_white(s[0]);
    lemma_digit_not_white(s.last());
    crate::text::lemma_trim_solid(s);
    let t = dec_nat(a.to as nat);
    let d = dec_int(a.distance as int);
    crate::text::lemma_dec_nat_digits(a.to as nat);
    lemma_dec_int_shape(a.distance as int);
    lemma_digit_not_white(t[0]);
    lemma_digit_not_white(t.last());
    crate::text::lemma_trim_solid(t);
    lemma_digit_not_white(d.last());
    assert(!is_white(d[0])) by {
        if d[0] != '-' {
            lemma_digit_not_white(d[0]);
        }
    }
    crate::text::lemma_trim_solid(d);
    crate::text::lemma_parse_dec_u64(a.to);
    crate::text::lemma_parse_dec_i64(a.distance);
}

proof fn lemma_parse_arc_texts(arcs: Seq<Arc>)
    ensures
        parse_arcs(arcs.map_values(|a: Arc| arc_text(a))) == Ok::<Seq<Arc>, ImportError>(arcs),
    decreases arcs.len(),
{
    let texts = arcs.map_values(|a: Arc| arc_text(a));
    if arcs.len() == 0 {
        assert(texts.len() == 0);
        assert(arcs =~= Seq::<Arc>::empty());
    } else {
        lemma_parse_arc_texts(arcs.drop_last());
        assert(texts.drop_last() =~= arcs.drop_last().map_values(|a: Arc| arc_text(a)));
        lemma_parse_arc_text(arcs.last());
        assert(arcs.drop_last().push(arcs.last()) =~= arcs);
    }
}

/// The text of a vertex, with or without a `\r` behind it, reads back as the
/// vertex.
proof fn lemma_parse_vertex_text(id: u64, arcs: Seq<Arc>, tail: Seq<char>)
    requires
        tail == Seq::<char>::empty() || tail == seq!['\r'],
    ensures
        parse_line(vertex_text(id, arcs) + tail) == Ok::<Option<(u64, Seq<Arc>)>, ImportError>(
            Some((id, arcs)),
        ),
{
    let texts = arcs.map_values(|a: Arc| arc_text(a));
    let di = dec_nat(id as nat);
    let j = join(texts, seq![' ']);
    let x = vertex_text(id, arcs);
    let line = x + tail;
    crate::text::lemma_dec_nat_digits(id as nat);
    lemma_digit_not_white(di[0]);
    lemma_digit_not_white(di.last());
    assert(x == di + seq![' '] + j);
    assert(x[0] == di[0]);
    assert(line[0] == di[0]);
    // the trimmed line
    let body = if arcs.len() == 0 { di } else { x };
    assert(crate::text::trim_start(line) == line);
    if tail.len() == 1 {
        assert(line.drop_last() =~= x);
        assert(crate::text::trim_end(line) == crate::text::trim_end(x));
    } else {
        assert(line =~= x);
    }
    assert forall|i: int| 0 <= i < texts.len() implies #[trigger] texts[i] == arc_text(arcs[i]) by {}
    assert(pieces_avoid(texts, ' ')) by {
        assert forall|i: int, k: int| 0 <= i < texts.len() && 0 <= k < texts[i].len() implies #[trigger] texts[i][k] != ' ' by {
            lemma_arc_text_shape(arcs[i]);
            assert(arc_chars(texts[i]));
            if is_digit(texts[i][k]) {
                lemma_digit_not_white(texts[i][k]);
            }
        }
    }
    if arcs.len() == 0 {
        assert(j =~= Seq::<char>::empty());
        assert(x.drop_last() =~= di);
        assert(crate::text::trim_end(x) == crate::text::trim_end(di));
        crate::text::lemma_trim_solid(di);
        assert(crate::text::trim(line) == di);
    } else {
        lemma_arc_text_shape(arcs.last());
        assert(texts.last() == arc_text(arcs.last()));
        crate::text::lemma_join_last(texts, seq![' ']);
        assert(x.last() == j.last());
        lemma_digit_not_white(x.last());
        crate::text::lemma_trim_solid(x);
        assert(crate::text::trim(line) == x);
    }
    let items = crate::text::split(crate::text::trim(line), ' ');
    assert forall|k: int| 0 <= k < di.len() implies #[trigger] di[k] != ' ' by {
        lemma_digit_not_white(di[k]);
    }
    crate::text::lemma_split_none(di, ' ');
    if arcs.len() == 0 {
        assert(items == seq![di]);
        assert(items.drop_first() =~= Seq::<Seq<char>>::empty());
    } else {
        crate::text::lemma_split_join(texts, ' ');
        crate::text::lemma_split_concat(di, j, ' ');
        assert(items == seq![di] + texts);
        assert(items.drop_first() =~= texts);
    }
    crate::text::lemma_trim_solid(di);
    crate::text::lemma_parse_dec_u64(id);
    lemma_parse_arc_texts(arcs);
}

/// The lines of a text joined with `\r\n` and split at `\n`: each line but
/// the last keeps its `\r`.
spec fn crlf_lines(ps: Seq<Seq<char>>) -> Seq<Seq<char>> {
    Seq::new(ps.len(), |i: int| if i < ps.len() - 1 { ps[i] + seq!['\r'] } else { ps[i] })
}

proof fn lemma_split_crlf(ps: Seq<Seq<char>>)
    requires
        ps.len() >= 1,
        pieces_avoid(ps, '\n'),
    ensures
        crate::text::split(join(ps, seq!['\r', '\n']), '\n') == crlf_lines(ps),
    decreases ps.len(),
{
    if ps.len() == 1 {
        assert forall|k: int| 0 <= k < ps[0].len() implies #[trigger] ps[0][k] != '\n' by {
            assert(ps[0][k] != '\n');
        }
        crate::text::lemma_split_none(ps[0], '\n');
        assert(crlf_lines(ps) =~= seq![ps[0]]);
    } else {
        let p1 = ps.drop_last();
        assert(pieces_avoid(p1, '\n')) by {
            assert forall|i: int, k: int| 0 <= i < p1.len() && 0 <= k < p1[i].len() implies #[trigger] p1[i][k] != '\n' by {
                assert(ps[i][k] != '\n');
            }
        }
        lemma_split_crlf(p1);
        let j1 = join(p1, seq!['\r', '\n']);
        assert(join(ps, seq!['\r', '\n']) =~= j1.push('\r') + seq!['\n'] + ps.last());
        assert forall|k: int| 0 <= k < ps.last().len() implies #[trigger] ps.last()[k] != '\n' by {
            assert(ps[ps.len() - 1][k] != '\n');
        }
        crate::text::lemma_split_none(ps.last(), '\n');
        crate::text::lemma_split_concat(j1.push('\r'), ps.last(), '\n');
        assert(j1.push('\r').drop_last() =~= j1);
        let c1 = crlf_lines(p1);
        assert(crate::text::split(j1.push('\r'), '\n') == c1.update(c1.len() - 1, c1.last().push('\r')));
        let c2 = c1.update(c1.len() - 1, c1.last().push('\r')) + seq![ps.last()];
        assert(c1.last() == p1.last());
        assert forall|i: int| 0 <= i < ps.len() implies #[trigger] c2[i] == crlf_lines(ps)[i] by {
            if i < ps.len() - 2 {
                assert(c2[i] == c1[i]);
            } else if i == ps.len() - 2 {
                assert(c2[i] =~= p1.last() + seq!['\r']);
            }
        }
        assert(c2 =~= crlf_lines(ps));
    }
}

proof fn lemma_parse_lines_each(ls: Seq<Seq<char>>, shape: Seq<(u64, Seq<Arc>)>)
    requires
        ls.len() == shape.len(),
        forall|i: int| 0 <= i < ls.len() ==> parse_line(#[trigger] ls[i]) == Ok::<Option<(u64, Seq<Arc>)>, ImportError>(Some(shape[i])),
    ensures
        parse_lines(ls) == Ok::<Seq<(u64, Seq<Arc>)>, ImportError>(shape),
    decreases ls.len(),
{
    if ls.len() == 0 {
        assert(shape =~= Seq::<(u64, Seq<Arc>)>::empty());
    } else {
        let l1 = ls.drop_last();
        let s1 = shape.drop_last();
        assert forall|i: int| 0 <= i < l1.len() implies parse_line(#[trigger] l1[i]) == Ok::<Option<(u64, Seq<Arc>)>, ImportError>(Some(s1[i])) by {
            assert(l1[i] == ls[i]);
        }
        lemma_parse_lines_each(l1, s1);
        assert(parse_line(ls.last()) == Ok::<Option<(u64, Seq<Arc>)>, ImportError>(Some(shape.last())));
        assert(s1.push(shape.last()) =~= shape);
    }
}

/// Reading what `export` writes gives back the ids and arcs of every vertex,
/// in order.
pub proof fn law_import_reads_export(g: Seq<Vertex>)
    ensures
        parse_graph(graph_text(g)) == Ok::<Seq<(u64, Seq<Arc>)>, ImportError>(graph_shape(g)),
{
    let texts = g.map_values(|v: Vertex| vertex_text(v.id, v.arcs@));
    if g.len() == 0 {
        assert(texts.len() == 0);
        assert(graph_text(g) == Seq::<char>::empty());
        assert(crate::text::split(Seq::<char>::empty(), '\n') == seq![Seq::<char>::empty()]);
        let e: Seq<char> = Seq::<char>::empty();
        assert(crate::text::trim(e) == e);
        assert(crate::text::split(e, ' ') == seq![e]);
        assert(parse_line(e) == Ok::<Option<(u64, Seq<Arc>)>, ImportError>(None));
        assert(seq![e].drop_last() =~= Seq::<Seq<char>>::empty());
        assert(parse_lines(Seq::<Seq<char>>::empty()) == Ok::<Seq<(u64, Seq<Arc>)>, ImportError>(Seq::<(u64, Seq<Arc>)>::empty()));
        assert(parse_lines(seq![e]) == Ok::<Seq<(u64, Seq<Arc>)>, ImportError>(Seq::<(u64, Seq<Arc>)>::empty()));
        assert(graph_shape(g) =~= Seq::<(u64, Seq<Arc>)>::empty());
    } else {
        assert(pieces_avoid(texts, '\n')) by {
            assert forall|i: int, k: int| 0 <= i < texts.len() && 0 <= k < texts[i].len() implies #[trigger] texts[i][k] != '\n' by {
                lemma_vertex_text_no_newline(g[i].id, g[i].arcs@, k);
            }
        }
        lemma_split_crlf(texts);
        assert(graph_text(g) == join(texts, seq!['\r', '\n']));
        let ls = crlf_lines(texts);
        assert forall|i: int| 0 <= i < ls.len() implies parse_line(#[trigger] ls[i]) == Ok::<Option<(u64, Seq<Arc>)>, ImportError>(Some(graph_shape(g)[i])) by {
            if i < ls.len() - 1 {
                lemma_parse_vertex_text(g[i].id, g[i].arcs@, seq!['\r']);
            } else {
                lemma_parse_vertex_text(g[i].id, g[i].arcs@, Seq::<char>::empty());
                assert(ls[i] =~= vertex_text(g[i].id, g[i].arcs@) + Seq::<char>::empty());
            }
        }
        lemma_parse_lines_each(ls, graph_shape(g));
        assert(parse_graph(graph_text(g)) == parse_lines(ls));
    }
}

proof fn lemma_vertex_text_no_newline(id: u64, arcs: Seq<Arc>, k: int)
    requires
        0 <= k < vertex_text(id, arcs).len(),
    ensures
        vertex_text(id, arcs)[k] != '\n',
{
    let texts = arcs.map_values(|a: Arc| arc_text(a));
    let di = dec_nat(id as nat);
    let j = join(texts, seq![' ']);
    crate::text::lemma_dec_nat_digits(id as nat);
    assert(vertex_text(id, arcs) == di + seq![' '] + j);
    if k < di.len() {
        lemma_digit_not_white(di[k]);
    } else if k > di.len() {
        assert forall|i: int, m: int| 0 <= i < texts.len() && 0 <= m < texts[i].len() implies #[trigger] texts[i][m] != '\n' by {
            lemma_arc_text_shape(arcs[i]);
            assert(texts[i] == arc_text(arcs[i]));
            assert(arc_chars(texts[i]));
            if is_digit(texts[i][m]) {
                lemma_digit_not_white(texts[i][m]);
            }
        }
        crate::text::lemma_join_avoids(texts, seq![' '], '\n');
        assert(vertex_text(id, arcs)[k] == j[k - di.len() - 1]);
    }
}

} // verus!
