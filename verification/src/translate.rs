//! Translating text with a dictionary: scan left to right, greedily
//! consume the longest dictionary-known prefix at each position, and
//! render the parts.

use crate::dict::Dict;
use crate::strutil::push_char;
use crate::wordlist::Def;
use crate::wordlist::DefView;
use vstd::prelude::*;

verus! {

/// A piece of translated output.
pub enum TranslationPart {
    /// A run of source text with no matching definition.
    Untranslated(String),
    /// A matched source span, with the definition found for it.
    Translated(String, Def),
}

/// The mathematical value of a [`TranslationPart`].
pub ghost enum TransPartView {
    Untranslated(Seq<char>),
    Translated(Seq<char>, DefView),
}

impl View for TranslationPart {
    type V = TransPartView;

    open spec fn view(&self) -> TransPartView {
        match self {
            TranslationPart::Untranslated(s) => TransPartView::Untranslated(s@),
            TranslationPart::Translated(s, d) => TransPartView::Translated(s@, d@),
        }
    }
}

impl DeepView for TranslationPart {
    type V = TransPartView;

    open spec fn deep_view(&self) -> TransPartView {
        self.view()
    }
}

/// The parts of translating `text` against `dict`, with `pending` the
/// untranslated run carried in from the left: at each position the
/// longest matching prefix becomes a `Translated` part, any pending run
/// is flushed before it, and an unmatched character extends the run.
pub open spec fn spec_parts(dict: Dict, text: Seq<char>, pending: Seq<char>) -> Seq<TransPartView>
    decreases text.len(),
{
    if text.len() == 0 {
        if pending.len() == 0 {
            Seq::<TransPartView>::empty()
        } else {
            seq![TransPartView::Untranslated(pending)]
        }
    } else {
        let l = dict.spec_longest_len(text);
        if 1 <= l && l <= text.len() {
            let flushed = if pending.len() == 0 {
                Seq::<TransPartView>::empty()
            } else {
                seq![TransPartView::Untranslated(pending)]
            };
            flushed + seq![
                TransPartView::Translated(text.take(l), dict.spec_get(text.take(l)).unwrap()),
            ] + spec_parts(dict, text.skip(l), Seq::<char>::empty())
        } else {
            spec_parts(dict, text.drop_first(), pending.push(text[0]))
        }
    }
}

/// The rendering of one part: an untranslated run verbatim; a matched
/// span by its primary meaning, where a meaning starting with `{` keeps
/// only the source in braces, one starting with `<` is substituted
/// verbatim, and any other meaning is bracketed.
pub open spec fn render_part(p: TransPartView) -> Seq<char>
    recommends
        p matches TransPartView::Translated(s, d) ==> d.meanings.len() > 0,
{
    match p {
        TransPartView::Untranslated(s) => s,
        TransPartView::Translated(s, d) => {
            let m = d.meanings[0];
            if m.len() > 0 && m[0] == '{' {
                seq!['{'] + s
            } else if m.len() > 0 && m[0] == '<' {
                m
            } else {
                seq!['['] + m + seq![']']
            }
        },
    }
}

/// The renderings of the parts, concatenated.
pub open spec fn render_parts(ps: Seq<TransPartView>) -> Seq<char>
    decreases ps.len(),
{
    if ps.len() == 0 {
        Seq::<char>::empty()
    } else {
        render_part(ps[0]) + render_parts(ps.drop_first())
    }
}

/// The translation of `text` against `dict`: its parts, rendered.
pub open spec fn spec_translate(dict: Dict, text: Seq<char>) -> Seq<char> {
    render_parts(spec_parts(dict, text, Seq::<char>::empty()))
}

/// Every definition in the dictionary has at least one meaning; rendering
/// needs a primary meaning.
pub open spec fn meanings_nonempty(dict: Dict) -> bool {
    forall|k: Seq<char>| #[trigger] dict.spec_get(k) matches Some(d) ==> d.meanings.len() > 0
}

/// Every `Translated` part carries a definition the dictionary holds
/// under the part's own source span.
spec fn parts_from_dict(dict: Dict, ps: Seq<TransPartView>) -> bool {
    forall|i: int|
        0 <= i < ps.len() ==> (#[trigger] ps[i] matches TransPartView::Translated(s, d)
            ==> dict.spec_get(s) == Some(d))
}

/// The parts of a translation take their definitions from the dictionary.
proof fn lemma_parts_from_dict(dict: Dict, text: Seq<char>, pending: Seq<char>)
    requires
        dict.wf(),
    ensures
        parts_from_dict(dict, spec_parts(dict, text, pending)),
    decreases text.len(),
{
    if text.len() == 0 {
    } else {
        let l = dict.spec_longest_len(text);
        dict.lemma_longest_len_props(text);
        if 1 <= l && l <= text.len() {
            lemma_parts_from_dict(dict, text.skip(l), Seq::<char>::empty());
            let flushed = if pending.len() == 0 {
                Seq::<TransPartView>::empty()
            } else {
                seq![TransPartView::Untranslated(pending)]
            };
            let mid = seq![
                TransPartView::Translated(text.take(l), dict.spec_get(text.take(l)).unwrap()),
            ];
            let rest = spec_parts(dict, text.skip(l), Seq::<char>::empty());
            let whole = flushed + mid + rest;
            assert forall|i: int|
                0 <= i < whole.len() implies (#[trigger] whole[i] matches TransPartView::Translated(
                    s,
                    d,
                ) ==> dict.spec_get(s) == Some(d)) by {
                if flushed.len() <= i < flushed.len() + 1 {
                    assert(whole[i] == mid[0]);
                } else if i >= flushed.len() + 1 {
                    assert(whole[i] == rest[i - flushed.len() - 1]);
                } else if 0 <= i < flushed.len() {
                    assert(whole[i] == flushed[0]);
                }
            }
        } else {
            lemma_parts_from_dict(dict, text.drop_first(), pending.push(text[0]));
        }
    }
}

/// Appends one part.
fn push_part(parts: &mut Vec<TranslationPart>, p: TranslationPart)
    ensures
        final(parts).deep_view() == old(parts).deep_view().push(p@),
{
    let ghost prevv = parts@;
    let ghost prev = parts.deep_view();
    parts.push(p);
    proof {
        assert(parts@ == prevv.push(p));
        assert(prev.len() == prevv.len());
        assert forall|i: int|
            0 <= i < parts@.len() implies parts.deep_view()[i] == prev.push(p@)[i] by {
            assert(parts.deep_view()[i] == parts@[i]@);
            if i < prevv.len() {
                assert(parts@[i] == prevv[i]);
                assert(prev[i] == prevv[i]@);
            } else {
                assert(parts@[i] == p);
            }
        }
        assert(parts.deep_view() =~= prev.push(p@));
    }
}

/// Splits the text into its translation parts: maximal untranslated runs
/// alternating with the longest dictionary matches, scanning left to
/// right from the start.
pub fn translate_iter(text: &str, dict: &Dict) -> (r: Vec<TranslationPart>)
    requires
        dict.wf(),
    ensures
        r.deep_view() == spec_parts(*dict, text@, Seq::<char>::empty()),
{
    let n = text.unicode_len();
    let mut parts: Vec<TranslationPart> = Vec::new();
    let mut pending = String::new();
    let mut pos: usize = 0;
    proof {
        assert(text@.skip(0) =~= text@);
        assert(parts.deep_view() =~= Seq::<TransPartView>::empty());
        assert(Seq::<TransPartView>::empty() + spec_parts(*dict, text@, Seq::<char>::empty())
            =~= spec_parts(*dict, text@, Seq::<char>::empty()));
    }
    while pos < n
        invariant
            pos <= n,
            n == text@.len(),
            dict.wf(),
            parts.deep_view() + spec_parts(*dict, text@.skip(pos as int), pending@) == spec_parts(
                *dict,
                text@,
                Seq::<char>::empty(),
            ),
        decreases n - pos,
    {
        let ghost rem_spec = text@.skip(pos as int);
        let rem = text.substring_char(pos, n);
        proof {
            assert(rem@ =~= rem_spec);
            dict.lemma_longest_len_props(rem_spec);
        }
        match dict.find_longest_match(rem) {
            Some((prefix, def)) => {
                let l = prefix.unicode_len();
                proof {
                    assert(l == dict.spec_longest_len(rem_spec));
                    assert(1 <= l && l <= rem_spec.len());
                }
                let ghost prev_parts = parts.deep_view();
                let ghost prev_pending = pending@;
                if !pending.as_str().is_empty() {
                    let done = pending;
                    pending = String::new();
                    push_part(&mut parts, TranslationPart::Untranslated(done));
                }
                let src = prefix.to_owned();
                let d2 = def.clone();
                push_part(&mut parts, TranslationPart::Translated(src, d2));
                pos = pos + l;
                proof {
                    let flushed = if prev_pending.len() == 0 {
                        Seq::<TransPartView>::empty()
                    } else {
                        seq![TransPartView::Untranslated(prev_pending)]
                    };
                    let t = TransPartView::Translated(
                        rem_spec.take(l as int),
                        dict.spec_get(rem_spec.take(l as int)).unwrap(),
                    );
                    let rest = spec_parts(*dict, rem_spec.skip(l as int), Seq::<char>::empty());
                    assert(spec_parts(*dict, rem_spec, prev_pending) == flushed + seq![t] + rest);
                    assert(prefix@ == rem_spec.take(l as int));
                    assert(def@ == dict.spec_get(rem_spec.take(l as int)).unwrap());
                    assert(parts.deep_view() =~= prev_parts + flushed + seq![t]);
                    assert(rem_spec.skip(l as int) =~= text@.skip(pos as int));
                    assert(pending@ =~= Seq::<char>::empty());
                    assert(parts.deep_view() + spec_parts(*dict, text@.skip(pos as int), pending@)
                        =~= (prev_parts + spec_parts(*dict, rem_spec, prev_pending)));
                }
            },
            None => {
                let c = text.get_char(pos);
                push_char(&mut pending, c);
                let ghost now_pending = pending@;
                pos = pos + 1;
                proof {
                    assert(dict.spec_longest_len(rem_spec) == 0);
                    assert(rem_spec[0] == c);
                    assert(rem_spec.drop_first() =~= text@.skip(pos as int));
                    assert(spec_parts(*dict, rem_spec, now_pending.drop_last()) == spec_parts(
                        *dict,
                        text@.skip(pos as int),
                        now_pending.drop_last().push(c),
                    ));
                    assert(now_pending.drop_last().push(c) =~= now_pending);
                }
            },
        }
    }
    proof {
        assert(text@.skip(n as int) =~= Seq::<char>::empty());
    }
    if !pending.as_str().is_empty() {
        push_part(&mut parts, TranslationPart::Untranslated(pending));
        proof {
            assert(parts.deep_view() =~= spec_parts(*dict, text@, Seq::<char>::empty()));
        }
        parts
    } else {
        proof {
            assert(spec_parts(*dict, Seq::<char>::empty(), pending@)
                =~= Seq::<TransPartView>::empty());
            assert(parts.deep_view() =~= parts.deep_view() + Seq::<TransPartView>::empty());
        }
        parts
    }
}

/// Replaces as much of the text as possible with the meanings found in
/// the dictionary and renders the result: untranslated runs verbatim, a
/// meaning starting with `{` as `{` plus the source span, one starting
/// with `<` verbatim, and any other meaning in `[` brackets.
pub fn translate(text: &str, dict: &Dict) -> (r: String)
    requires
        dict.wf(),
        meanings_nonempty(*dict),
    ensures
        r@ == spec_translate(*dict, text@),
{
    let parts = translate_iter(text, dict);
    proof {
        lemma_parts_from_dict(*dict, text@, Seq::<char>::empty());
    }
    let ghost dv = parts.deep_view();
    let np = parts.len();
    let mut out = String::new();
    let mut i: usize = 0;
    proof {
        assert(dv.skip(0) =~= dv);
        assert(Seq::<char>::empty() + render_parts(dv) =~= render_parts(dv));
    }
    while i < np
        invariant
            i <= np,
            np == parts@.len(),
            dv == parts.deep_view(),
            meanings_nonempty(*dict),
            parts_from_dict(*dict, dv),
            out@ + render_parts(dv.skip(i as int)) == render_parts(dv),
        decreases np - i,
    {
        let ghost pv = dv[i as int];
        proof {
            assert(parts.deep_view()[i as int] == parts@[i as int]@);
            assert(dv.skip(i as int)[0] == pv);
            assert(dv.skip(i as int).drop_first() =~= dv.skip(i as int + 1));
            assert(render_parts(dv.skip(i as int)) == render_part(pv) + render_parts(
                dv.skip(i as int + 1),
            ));
        }
        match &parts[i] {
            TranslationPart::Untranslated(s) => {
                out.append(s.as_str());
            },
            TranslationPart::Translated(src, def) => {
                proof {
                    assert(pv matches TransPartView::Translated(s, d) && dict.spec_get(s)
                        == Some(d));
                    assert(def@.meanings.len() > 0);
                    assert(def.meanings@.len() > 0);
                }
                let m = &def.meanings[0];
                proof {
                    assert(m@ == def@.meanings[0]);
                }
                let ml = m.unicode_len();
                if ml > 0 && m.get_char(0) == '{' {
                    push_char(&mut out, '{');
                    out.append(src.as_str());
                    proof {
                        assert(render_part(pv) =~= seq!['{'] + src@);
                    }
                } else if ml > 0 && m.get_char(0) == '<' {
                    out.append(m.as_str());
                    proof {
                        assert(render_part(pv) =~= m@);
                    }
                } else {
                    push_char(&mut out, '[');
                    out.append(m.as_str());
                    push_char(&mut out, ']');
                    proof {
                        assert(render_part(pv) =~= seq!['['] + m@ + seq![']']);
                    }
                }
            },
        }
        proof {
            assert(out@ + render_parts(dv.skip(i as int + 1)) =~= render_parts(dv));
        }
        i = i + 1;
    }
    proof {
        assert(dv.skip(np as int) =~= Seq::<TransPartView>::empty());
        assert(out@ =~= out@ + render_parts(dv.skip(np as int)));
    }
    out
}

/// No non-empty prefix of any suffix of `text` is a dictionary key: the
/// text contains no dictionary key at all.
pub open spec fn no_match_anywhere(dict: Dict, text: Seq<char>) -> bool {
    forall|i: int| 0 <= i <= text.len() ==> dict.spec_longest_len(#[trigger] text.skip(i)) == 0
}

/// With no match anywhere, the whole text is one untranslated run after
/// the pending run.
proof fn lemma_parts_no_match(dict: Dict, text: Seq<char>, pending: Seq<char>)
    requires
        no_match_anywhere(dict, text),
    ensures
        spec_parts(dict, text, pending) == if pending.len() + text.len() == 0 {
            Seq::<TransPartView>::empty()
        } else {
            seq![TransPartView::Untranslated(pending + text)]
        },
    decreases text.len(),
{
    if text.len() == 0 {
        assert(pending + text =~= pending);
    } else {
        assert(text.skip(0) =~= text);
        assert(dict.spec_longest_len(text) == 0);
        assert forall|i: int|
            0 <= i <= text.drop_first().len() implies dict.spec_longest_len(
            #[trigger] text.drop_first().skip(i),
        ) == 0 by {
            assert(text.drop_first().skip(i) =~= text.skip(i + 1));
        }
        lemma_parts_no_match(dict, text.drop_first(), pending.push(text[0]));
        assert(pending.push(text[0]) + text.drop_first() =~= pending + text);
    }
}

/// Round trip on no-match text: translating text that contains no
/// dictionary key returns the text unchanged.
pub proof fn lemma_translate_no_match(dict: Dict, text: Seq<char>)
    requires
        no_match_anywhere(dict, text),
    ensures
        spec_translate(dict, text) == text,
{
    lemma_parts_no_match(dict, text, Seq::<char>::empty());
    if text.len() == 0 {
        assert(spec_translate(dict, text) =~= text);
    } else {
        let ps = seq![TransPartView::Untranslated(Seq::<char>::empty() + text)];
        assert(ps.drop_first() =~= Seq::<TransPartView>::empty());
        assert(render_parts(ps) == render_part(ps[0]) + render_parts(ps.drop_first()));
        assert(spec_translate(dict, text) =~= text);
    }
}

} // verus!
