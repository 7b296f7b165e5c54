use vstd::prelude::*;
use vstd::string::StrSliceExecFns;
use vstd::string::StringExecFns;

use crate::text::str_eq;

verus! {

/// The HTML dialect selected for output; it decides which doctype a `!!!`
/// line produces.
#[derive(Clone, Copy, Debug, PartialEq, Eq, Structural)]
pub enum HtmlFormat {
    Xhtml,
    Html4,
    Html5,
}

/// Whether no space occurs in `s`.
pub open spec fn sans_space(s: Seq<char>) -> bool {
    forall|i: int| 0 <= i < s.len() ==> s[i] != ' '
}

/// The XML prolog a specifier of the shape `XML` or `XML <encoding>` asks
/// for; anything else asks for none.
pub open spec fn xml_prolog_spec(s: Seq<char>) -> Option<Seq<char>> {
    if s == "XML"@ {
        Some("<?xml version='1.0' encoding='utf-8' ?>"@)
    } else if s.len() >= 4 && s.take(4) == "XML "@ && sans_space(s.skip(4)) {
        Some("<?xml version='1.0' encoding='"@ + s.skip(4) + "' ?>"@)
    } else {
        None
    }
}

/// The XHTML doctype a specifier selects.
pub open spec fn xhtml_doctype(s: Seq<char>) -> Seq<char> {
    if s == "Strict"@ {
        "<!DOCTYPE html PUBLIC \"-//W3C//DTD XHTML 1.0 Strict//EN\" \"http://www.w3.org/TR/xhtml1/DTD/xhtml1-strict.dtd\">"@
    } else if s == "Frameset"@ {
        "<!DOCTYPE html PUBLIC \"-//W3C//DTD XHTML 1.0 Frameset//EN\" \"http://www.w3.org/TR/xhtml1/DTD/xhtml1-frameset.dtd\">"@
    } else if s == "5"@ {
        "<!DOCTYPE html>"@
    } else if s == "1.1"@ {
        "<!DOCTYPE html PUBLIC \"-//W3C//DTD XHTML 1.1//EN\" \"http://www.w3.org/TR/xhtml11/DTD/xhtml11.dtd\">"@
    } else if s == "Basic"@ {
        "<!DOCTYPE html PUBLIC \"-//W3C//DTD XHTML Basic 1.1//EN\" \"http://www.w3.org/TR/xhtml-basic/xhtml-basic11.dtd\">"@
    } else if s == "Mobile"@ {
        "<!DOCTYPE html PUBLIC \"-//WAPFORUM//DTD XHTML Mobile 1.2//EN\" \"http://www.openmobilealliance.org/tech/DTD/xhtml-mobile12.dtd\">"@
    } else if s == "RDFa"@ {
        "<!DOCTYPE html PUBLIC \"-//W3C//DTD XHTML+RDFa 1.0//EN\" \"http://www.w3.org/MarkUp/DTD/xhtml-rdfa-1.dtd\">"@
    } else {
        "<!DOCTYPE html PUBLIC \"-//W3C//DTD XHTML 1.0 Transitional//EN\" \"http://www.w3.org/TR/xhtml1/DTD/xhtml1-transitional.dtd\">"@
    }
}

/// The HTML 4.01 doctype a specifier selects.
pub open spec fn html4_doctype(s: Seq<char>) -> Seq<char> {
    if s == "Strict"@ {
        "<!DOCTYPE html PUBLIC \"-//W3C//DTD HTML 4.01//EN\" \"http://www.w3.org/TR/html4/strict.dtd\">"@
    } else if s == "Frameset"@ {
        "<!DOCTYPE html PUBLIC \"-//W3C//DTD HTML 4.01 Frameset//EN\" \"http://www.w3.org/TR/html4/frameset.dtd\">"@
    } else {
        "<!DOCTYPE html PUBLIC \"-//W3C//DTD HTML 4.01 Transitional//EN\" \"http://www.w3.org/TR/html4/loose.dtd\">"@
    }
}

/// The header line a doctype specifier produces under the selected dialect:
/// an XML prolog when the specifier asks for one, else the dialect's doctype.
pub open spec fn specific_format(s: Seq<char>, f: HtmlFormat) -> Seq<char> {
    match xml_prolog_spec(s) {
        Some(p) => p,
        None => match f {
            HtmlFormat::Xhtml => xhtml_doctype(s),
            HtmlFormat::Html4 => html4_doctype(s),
            HtmlFormat::Html5 => "<!DOCTYPE html>"@,
        },
    }
}

/// The XML prolog the specifier asks for, if any.
fn xml_prolog(spec_format: &str) -> (r: Option<String>)
    ensures
        match xml_prolog_spec(spec_format@) {
            Some(p) => r is Some && r.unwrap()@ == p,
            None => r is None,
        },
{
    proof {
        reveal_strlit("XML");
        reveal_strlit("XML ");
    }
    let ghost s = spec_format@;
    let n = spec_format.unicode_len();
    let mut i: usize = 0;
    while i < n && spec_format.get_char(i) != ' '
        invariant
            s == spec_format@,
            0 <= i <= n,
            n == s.len(),
            forall|j: int| 0 <= j < i ==> s[j] != ' ',
        decreases n - i,
    {
        i = i + 1;
    }
    if i == n {
        // no space anywhere: the prolog comes only from a bare `XML`
        if n == 3 && spec_format.get_char(0) == 'X' && spec_format.get_char(1) == 'M'
            && spec_format.get_char(2) == 'L' {
            proof {
                assert(s =~= "XML"@);
            }
            Some("<?xml version='1.0' encoding='utf-8' ?>".to_owned())
        } else {
            proof {
                assert(s != "XML"@);
                if s.len() >= 4 {
                    assert(s.take(4)[3] == s[3]);
                }
            }
            None
        }
    } else {
        // the first space sits at index i
        if i == 3 && spec_format.get_char(0) == 'X' && spec_format.get_char(1) == 'M'
            && spec_format.get_char(2) == 'L' {
            let mut j: usize = i + 1;
            let mut clean = true;
            while j < n
                invariant
                    s == spec_format@,
                    i + 1 <= j <= n,
                    n == s.len(),
                    clean == (forall|k: int| i + 1 <= k < j ==> s[k] != ' '),
                decreases n - j,
            {
                if spec_format.get_char(j) == ' ' {
                    clean = false;
                }
                j = j + 1;
            }
            if clean {
                proof {
                    assert(s.take(4) =~= "XML "@);
                    assert(sans_space(s.skip(4)));
                }
                let mut out = "<?xml version='1.0' encoding='".to_owned();
                let encoding = spec_format.substring_char(4, n);
                out.append(encoding);
                out.append("' ?>");
                proof {
                    assert(s != "XML"@);
                }
                Some(out)
            } else {
                proof {
                    assert(s != "XML"@);
                    let k = choose|k: int| i + 1 <= k < n && s[k] == ' ';
                    assert(s.skip(4)[k - 4] == ' ');
                    assert(!sans_space(s.skip(4)));
                }
                None
            }
        } else {
            proof {
                assert(s != "XML"@);
                if s.len() >= 4 && s.take(4) == "XML "@ {
                    assert(s.take(4)[0] == s[0] && s.take(4)[1] == s[1] && s.take(4)[2] == s[2]
                        && s.take(4)[3] == s[3]);
                    assert(s[0] == 'X' && s[1] == 'M' && s[2] == 'L' && s[3] == ' ');
                    assert(i == 3);
                    assert(false);
                }
            }
            None
        }
    }
}

/// The XHTML doctype the specifier selects.
fn get_xhtml_specific(spec_format: &str) -> (r: String)
    ensures
        r@ == xhtml_doctype(spec_format@),
{
    if str_eq(spec_format, "Strict") {
        "<!DOCTYPE html PUBLIC \"-//W3C//DTD XHTML 1.0 Strict//EN\" \"http://www.w3.org/TR/xhtml1/DTD/xhtml1-strict.dtd\">".to_owned()
    } else if str_eq(spec_format, "Frameset") {
        "<!DOCTYPE html PUBLIC \"-//W3C//DTD XHTML 1.0 Frameset//EN\" \"http://www.w3.org/TR/xhtml1/DTD/xhtml1-frameset.dtd\">".to_owned()
    } else if str_eq(spec_format, "5") {
        "<!DOCTYPE html>".to_owned()
    } else if str_eq(spec_format, "1.1") {
        "<!DOCTYPE html PUBLIC \"-//W3C//DTD XHTML 1.1//EN\" \"http://www.w3.org/TR/xhtml11/DTD/xhtml11.dtd\">".to_owned()
    } else if str_eq(spec_format, "Basic") {
        "<!DOCTYPE html PUBLIC \"-//W3C//DTD XHTML Basic 1.1//EN\" \"http://www.w3.org/TR/xhtml-basic/xhtml-basic11.dtd\">".to_owned()
    } else if str_eq(spec_format, "Mobile") {
        "<!DOCTYPE html PUBLIC \"-//WAPFORUM//DTD XHTML Mobile 1.2//EN\" \"http://www.openmobilealliance.org/tech/DTD/xhtml-mobile12.dtd\">".to_owned()
    } else if str_eq(spec_format, "RDFa") {
        "<!DOCTYPE html PUBLIC \"-//W3C//DTD XHTML+RDFa 1.0//EN\" \"http://www.w3.org/MarkUp/DTD/xhtml-rdfa-1.dtd\">".to_owned()
    } else {
        "<!DOCTYPE html PUBLIC \"-//W3C//DTD XHTML 1.0 Transitional//EN\" \"http://www.w3.org/TR/xhtml1/DTD/xhtml1-transitional.dtd\">".to_owned()
    }
}

/// The HTML 4.01 doctype the specifier selects.
fn get_html4_specific(spec_format: &str) -> (r: String)
    ensures
        r@ == html4_doctype(spec_format@),
{
    if str_eq(spec_format, "Strict") {
        "<!DOCTYPE html PUBLIC \"-//W3C//DTD HTML 4.01//EN\" \"http://www.w3.org/TR/html4/strict.dtd\">".to_owned()
    } else if str_eq(spec_format, "Frameset") {
        "<!DOCTYPE html PUBLIC \"-//W3C//DTD HTML 4.01 Frameset//EN\" \"http://www.w3.org/TR/html4/frameset.dtd\">".to_owned()
    } else {
        "<!DOCTYPE html PUBLIC \"-//W3C//DTD HTML 4.01 Transitional//EN\" \"http://www.w3.org/TR/html4/loose.dtd\">".to_owned()
    }
}

/// The HTML 5 doctype: the specifier does not matter.
fn get_html5_specific(_spec_format: &str) -> (r: String)
    ensures
        r@ == "<!DOCTYPE html>"@,
{
    "<!DOCTYPE html>".to_owned()
}

/// The header line a doctype specifier produces under the selected dialect.
pub fn get_specific_format(spec_format: &str, html_fmt: HtmlFormat) -> (r: String)
    ensures
        r@ == specific_format(spec_format@, html_fmt),
{
    match xml_prolog(spec_format) {
        Option::Some(s) => s,
        Option::None => {
            match html_fmt {
                HtmlFormat::Xhtml => get_xhtml_specific(spec_format),
                HtmlFormat::Html4 => get_html4_specific(spec_format),
                HtmlFormat::Html5 => get_html5_specific(spec_format),
            }
        },
    }
}

} // verus!
