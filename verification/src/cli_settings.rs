//! Basic settings of a delimited-text file, and the resolution of
//! user-written column selections (names, indices, quoted names,
//! `name[k]` duplicate disambiguation) into zero-based column indices.

use crate::errors::{CsvCliError, CsvCliResult};
use crate::strutil::{
    chars_to_string, digits_val, is_digit_char, parse_usize_chars, parse_usize_digits,
    str_ends_with, str_eq_chars, str_eq_str, str_views, trim_spec, trim_str,
};
use vstd::prelude::*;
use vstd::string::StrSliceExecFns;
use vstd::string::StringExecFns;

verus! {

/// The character views of a sequence of string slices.
pub open spec fn slice_views(s: Seq<&str>) -> Seq<Seq<char>> {
    s.map_values(|x: &str| x@)
}

/// The basic shape of a delimited-text file: the field separator and
/// whether a header row comes first.
#[derive(Debug)]
pub struct CsvSettings {
    pub delimiter: u8,
    pub has_header: bool,
}

impl Default for CsvSettings {
    /// Comma-separated with a header row.
    fn default() -> (r: CsvSettings)
        ensures
            r.delimiter == 44,
            r.has_header,
    {
        CsvSettings { delimiter: 44, has_header: true }
    }
}

/// What the delimiter settings resolve to: an explicit `\t` escape or a
/// single-byte delimiter is taken as given; otherwise `.tsv`/`.tab` file
/// names get a tab and everything else a comma. A multi-byte delimiter is
/// refused (`None`).
pub open spec fn spec_delimiter(fname: Option<Seq<char>>, delim: Option<Seq<char>>) -> Option<u8> {
    match delim {
        Some(d) => if d == "\\t"@ {
            Some(9u8)
        } else if d.len() == 1 && (d[0] as u32) < 128 {
            Some(d[0] as u8)
        } else {
            None
        },
        None => match fname {
            Some(f) => if f.len() >= 4 && (f.subrange(f.len() - 4, f.len() as int) == ".tsv"@
                || f.subrange(f.len() - 4, f.len() as int) == ".tab"@) {
                Some(9u8)
            } else {
                Some(44u8)
            },
            None => Some(44u8),
        },
    }
}

/// Whether a numeric-looking selection resolves: the trimmed text must be
/// non-empty ASCII digits denoting a value that fits a `usize`.
pub open spec fn spec_numeric_index(s: Seq<char>) -> Option<int> {
    let t = trim_spec(s);
    if t.len() > 0 && (forall|i: int| 0 <= i < t.len() ==> is_digit_char(t[i])) && digits_val(t)
        <= usize::MAX {
        Some(digits_val(t) as int)
    } else {
        None
    }
}

/// One step of the quote-aware scan that splits a selection on commas.
pub open spec fn split_step(
    s: Seq<char>,
    i: int,
    quote: Option<char>,
    cur: Seq<char>,
    out: Seq<Seq<char>>,
) -> Seq<Seq<char>>
    decreases s.len() - i,
{
    if i < 0 || i >= s.len() {
        if cur.len() > 0 {
            out.push(cur)
        } else {
            out
        }
    } else {
        let c = s[i];
        if quote is None {
            if c == '\'' || c == '"' {
                split_step(s, i + 1, Some(c), cur.push(c), out)
            } else if c == ',' {
                split_step(s, i + 1, None, Seq::empty(), out.push(cur))
            } else {
                split_step(s, i + 1, None, cur.push(c), out)
            }
        } else {
            if (c == '\'' || c == '"') && Some(c) == quote {
                split_step(s, i + 1, None, cur.push(c), out)
            } else {
                split_step(s, i + 1, quote, cur.push(c), out)
            }
        }
    }
}

/// What splitting a combined selection yields: comma-separated pieces,
/// with commas inside quotes kept.
pub open spec fn split_arg_spec(s: Seq<char>) -> Seq<Seq<char>> {
    split_step(s, 0, None, Seq::empty(), Seq::empty())
}

/// One step of the scan that takes a column description apart into the
/// expected field name and the bracketed occurrence text.
pub open spec fn scan_step(
    s: Seq<char>,
    i: int,
    quote: Option<char>,
    brackets: bool,
    name: Seq<char>,
    order: Seq<char>,
) -> (Seq<char>, Seq<char>)
    decreases s.len() - i,
{
    if i < 0 || i >= s.len() {
        (name, order)
    } else {
        let c = s[i];
        if quote is None {
            if brackets {
                if c != ']' {
                    scan_step(s, i + 1, None, true, name, order.push(c))
                } else {
                    scan_step(s, i + 1, None, true, name, order)
                }
            } else if c == '\'' || c == '"' {
                scan_step(s, i + 1, Some(c), false, name, order)
            } else if c != '[' {
                scan_step(s, i + 1, None, false, name.push(c), order)
            } else {
                scan_step(s, i + 1, None, true, name, order)
            }
        } else {
            if (c == '\'' || c == '"') && Some(c) == quote {
                scan_step(s, i + 1, None, brackets, name, order)
            } else {
                scan_step(s, i + 1, quote, brackets, name.push(c), order)
            }
        }
    }
}

/// The index of the `n`-th occurrence (0-based) of `name` among the
/// headers, counting from position `i`.
pub open spec fn find_nth_from(headers: Seq<Seq<char>>, name: Seq<char>, n: int, i: int) -> Option<
    int,
>
    decreases headers.len() - i,
{
    if i < 0 || i >= headers.len() {
        None
    } else if headers[i] == name {
        if n == 0 {
            Some(i)
        } else {
            find_nth_from(headers, name, n - 1, i + 1)
        }
    } else {
        find_nth_from(headers, name, n, i + 1)
    }
}

/// What a bracketed occurrence text denotes: digits that fit a `usize`.
pub open spec fn spec_order_val(order_s: Seq<char>) -> Option<int> {
    if order_s.len() > 0 && (forall|i: int| 0 <= i < order_s.len() ==> is_digit_char(order_s[i]))
        && digits_val(order_s) <= usize::MAX {
        Some(digits_val(order_s) as int)
    } else {
        None
    }
}

/// What resolving a non-numeric column description yields: the scanned
/// name's `k`-th occurrence among the headers, `k` defaulting to 0.
pub open spec fn spec_string_index(s: Seq<char>, headers: Seq<Seq<char>>) -> Option<int> {
    let scan = scan_step(trim_spec(s), 0, None, false, Seq::empty(), Seq::empty());
    let order_s = if scan.1.len() == 0 {
        seq!['0']
    } else {
        scan.1
    };
    match spec_order_val(order_s) {
        Some(n) => find_nth_from(headers, scan.0, n, 0),
        None => None,
    }
}

/// What resolving one column description yields: an in-range numeric
/// selection is taken as the index itself; otherwise (with a header row)
/// the description names a header field.
pub open spec fn spec_field_index(has_header: bool, s: Seq<char>, headers: Seq<Seq<char>>) -> Option<
    int,
> {
    match spec_numeric_index(s) {
        Some(n) => if n < headers.len() {
            Some(n)
        } else {
            None
        },
        None => if !has_header {
            None
        } else {
            spec_string_index(s, headers)
        },
    }
}

/// Resolving a run of column descriptions: every one must resolve.
pub open spec fn spec_indexes_of(
    has_header: bool,
    cols: Seq<Seq<char>>,
    headers: Seq<Seq<char>>,
) -> Option<Seq<int>>
    decreases cols.len(),
{
    if cols.len() == 0 {
        Some(Seq::empty())
    } else {
        match spec_indexes_of(has_header, cols.drop_last(), headers) {
            Some(pre) => match spec_field_index(has_header, cols.last(), headers) {
                Some(i) => Some(pre.push(i)),
                None => None,
            },
            None => None,
        }
    }
}

/// Resolving the user's selections: each is split on unquoted commas, and
/// every piece must resolve.
pub open spec fn spec_field_indexes(
    has_header: bool,
    defs: Seq<Seq<char>>,
    headers: Seq<Seq<char>>,
) -> Option<Seq<int>>
    decreases defs.len(),
{
    if defs.len() == 0 {
        Some(Seq::empty())
    } else {
        match spec_field_indexes(has_header, defs.drop_last(), headers) {
            Some(pre) => match spec_indexes_of(
                has_header,
                split_arg_spec(defs.last()),
                headers,
            ) {
                Some(v) => Some(pre + v),
                None => None,
            },
            None => None,
        }
    }
}

impl CsvSettings {
    /// Builds the settings, resolving the delimiter; a delimiter that is
    /// not a single byte is a configuration error.
    pub fn parse_new(fname: &Option<&str>, delim: Option<&str>, has_header: bool) -> (r:
        CsvCliResult<CsvSettings>)
        ensures
            ({
                let fv = match *fname {
                    Some(f) => Some(f@),
                    None => None,
                };
                let dv = match delim {
                    Some(d) => Some(d@),
                    None => None,
                };
                match spec_delimiter(fv, dv) {
                    Some(b) => r matches Ok(s) && s.delimiter == b && s.has_header == has_header,
                    None => r matches Err(CsvCliError::InvalidConfiguration(_)),
                }
            }),
    {
        let delimiter = match CsvSettings::parse_delimiter(fname, delim) {
            Ok(d) => d,
            Err(e) => {
                return Err(e);
            },
        };
        Ok(CsvSettings { delimiter, has_header })
    }

    /// Resolves the delimiter byte from the explicit flag or the file name.
    fn parse_delimiter(fname: &Option<&str>, delim: Option<&str>) -> (r: CsvCliResult<u8>)
        ensures
            ({
                let fv = match *fname {
                    Some(f) => Some(f@),
                    None => None,
                };
                let dv = match delim {
                    Some(d) => Some(d@),
                    None => None,
                };
                match spec_delimiter(fv, dv) {
                    Some(b) => r matches Ok(x) && x == b,
                    None => r matches Err(CsvCliError::InvalidConfiguration(_)),
                }
            }),
    {
        match delim {
            Some(d) => {
                if str_eq_str(d, "\\t") {
                    Ok(9)
                } else if d.unicode_len() == 1 && (d.get_char(0) as u32) < 128 {
                    Ok((d.get_char(0) as u32) as u8)
                } else {
                    let mut msg = String::new();
                    msg.append("Could not convert `");
                    msg.append(d);
                    msg.append("` delimiter to a single ASCII character");
                    Err(CsvCliError::InvalidConfiguration(msg))
                }
            },
            None => {
                match fname {
                    Some(f) => {
                        if str_ends_with(f, ".tsv") || str_ends_with(f, ".tab") {
                            proof {
                                reveal_strlit(".tsv");
                                reveal_strlit(".tab");
                            }
                            Ok(9)
                        } else {
                            proof {
                                reveal_strlit(".tsv");
                                reveal_strlit(".tab");
                            }
                            Ok(44)
                        }
                    },
                    None => Ok(44),
                }
            },
        }
    }

    /// Splits one combined selection on unquoted commas.
    pub fn split_arg_string(&self, combined_cols: &str) -> (r: Vec<String>)
        ensures
            str_views(r@) == split_arg_spec(combined_cols@),
    {
        let s = combined_cols;
        let n = s.unicode_len();
        let mut out: Vec<String> = Vec::new();
        let mut cur: Vec<char> = Vec::new();
        let mut quote: Option<char> = None;
        let mut i: usize = 0;
        proof {
            assert(cur@ =~= Seq::<char>::empty());
            assert(str_views(out@) =~= Seq::<Seq<char>>::empty());
        }
        while i < n
            invariant
                n == s@.len(),
                0 <= i <= n,
                split_step(s@, i as int, quote, cur@, str_views(out@)) == split_arg_spec(s@),
            decreases n - i,
        {
            let c = s.get_char(i);
            let ghost old_out = out@;
            let ghost old_cur = cur@;
            match quote {
                None => {
                    if c == '\'' || c == '"' {
                        quote = Some(c);
                        cur.push(c);
                    } else if c == ',' {
                        let piece = chars_to_string(&cur);
                        out.push(piece);
                        cur = Vec::new();
                        proof {
                            assert(str_views(out@) =~= str_views(old_out).push(old_cur));
                        }
                    } else {
                        cur.push(c);
                    }
                },
                Some(q) => {
                    if (c == '\'' || c == '"') && c == q {
                        quote = None;
                        cur.push(c);
                    } else {
                        cur.push(c);
                    }
                },
            }
            i += 1;
        }
        if cur.len() > 0 {
            let piece = chars_to_string(&cur);
            let ghost old_out = out@;
            let ghost old_cur = cur@;
            out.push(piece);
            proof {
                assert(str_views(out@) =~= str_views(old_out).push(old_cur));
            }
        }
        out
    }

    /// Resolves a purely numeric selection: trimmed ASCII digits denoting
    /// a value that fits a `usize`.
    pub fn get_numeric_index(&self, colname: &str) -> (r: Option<usize>)
        ensures
            match r {
                Some(n) => spec_numeric_index(colname@) == Some(n as int),
                None => spec_numeric_index(colname@) is None,
            },
    {
        let parsed_str = trim_str(colname);
        parse_usize_digits(parsed_str)
    }

    /// Resolves a named selection against the header row, honouring quotes
    /// and a bracketed occurrence number.
    pub fn get_string_index(&self, colname: &str, headers: &Vec<&str>) -> (r: CsvCliResult<usize>)
        ensures
            match r {
                Ok(i) => spec_string_index(colname@, slice_views(headers@)) == Some(i as int),
                Err(CsvCliError::InvalidConfiguration(_)) => spec_string_index(
                    colname@,
                    slice_views(headers@),
                ) is None,
                Err(_) => false,
            },
    {
        let trimmed = trim_str(colname);
        let s = trimmed;
        let n = s.unicode_len();
        let mut name: Vec<char> = Vec::new();
        let mut order: Vec<char> = Vec::new();
        let mut quote: Option<char> = None;
        let mut brackets = false;
        let mut i: usize = 0;
        proof {
            assert(name@ =~= Seq::<char>::empty());
            assert(order@ =~= Seq::<char>::empty());
        }
        while i < n
            invariant
                n == s@.len(),
                0 <= i <= n,
                scan_step(s@, i as int, quote, brackets, name@, order@) == scan_step(
                    s@,
                    0,
                    None,
                    false,
                    Seq::empty(),
                    Seq::empty(),
                ),
            decreases n - i,
        {
            let c = s.get_char(i);
            match quote {
                None => {
                    if brackets {
                        if c != ']' {
                            order.push(c);
                        }
                    } else if c == '\'' || c == '"' {
                        quote = Some(c);
                    } else if c != '[' {
                        name.push(c);
                    } else {
                        brackets = true;
                    }
                },
                Some(q) => {
                    if (c == '\'' || c == '"') && c == q {
                        quote = None;
                    } else {
                        name.push(c);
                    }
                },
            }
            i += 1;
        }
        proof {
            let scan = scan_step(s@, 0, None, false, Seq::empty(), Seq::empty());
            assert(scan_step(s@, n as int, quote, brackets, name@, order@) == (name@, order@));
            assert(scan.0 == name@ && scan.1 == order@);
        }
        let order_val: Option<usize> = if order.len() == 0 {
            proof {
                assert(seq!['0'].drop_last() =~= Seq::<char>::empty());
                assert(seq!['0'].last() == '0');
                assert(('0' as u32) == 48);
                assert(is_digit_char('0'));
                assert(crate::strutil::digit_val('0') == 0);
                assert(digits_val(Seq::<char>::empty()) == 0);
                assert(digits_val(seq!['0']) == 0);
                assert(forall|i: int| 0 <= i < seq!['0'].len() ==> is_digit_char(seq!['0'][i]));
            }
            Some(0)
        } else {
            parse_usize_chars(&order)
        };
        let ord = match order_val {
            Some(o) => o,
            None => {
                proof {
                    assert(order@.len() > 0);
                    assert(s@ == trim_spec(colname@));
                    let scan = scan_step(
                        trim_spec(colname@),
                        0,
                        None,
                        false,
                        Seq::empty(),
                        Seq::empty(),
                    );
                    assert(scan.1 == order@);
                    assert(scan.1.len() != 0);
                    let os = if scan.1.len() == 0 {
                        seq!['0']
                    } else {
                        scan.1
                    };
                    assert(os == order@);
                    assert(!(os.len() > 0 && (forall|i: int|
                        0 <= i < os.len() ==> is_digit_char(os[i])) && digits_val(os)
                        <= usize::MAX));
                    assert(spec_order_val(os) is None);
                    assert(spec_string_index(colname@, slice_views(headers@)) is None);
                }
                let mut msg = String::new();
                msg.append("Could not convert column name `");
                msg.append(colname);
                msg.append("`. Hint: consider enclosing the column in quotes");
                return Err(CsvCliError::InvalidConfiguration(msg));
            },
        };
        self.find_index_from_expected(&name, ord, headers)
    }

    /// The index of the `expected_order`-th occurrence of the expected
    /// header among the headers.
    fn find_index_from_expected(
        &self,
        expected_header: &Vec<char>,
        expected_order: usize,
        headers: &Vec<&str>,
    ) -> (r: CsvCliResult<usize>)
        ensures
            match r {
                Ok(i) => find_nth_from(
                    slice_views(headers@),
                    expected_header@,
                    expected_order as int,
                    0,
                ) == Some(i as int),
                Err(CsvCliError::InvalidConfiguration(_)) => find_nth_from(
                    slice_views(headers@),
                    expected_header@,
                    expected_order as int,
                    0,
                ) is None,
                Err(_) => false,
            },
    {
        let ghost hv = slice_views(headers@);
        let mut count: usize = 0;
        let mut i: usize = 0;
        while i < headers.len()
            invariant
                hv == slice_views(headers@),
                0 <= i <= headers@.len(),
                count <= expected_order,
                find_nth_from(hv, expected_header@, expected_order as int, 0) == find_nth_from(
                    hv,
                    expected_header@,
                    (expected_order - count) as int,
                    i as int,
                ),
            decreases headers@.len() - i,
        {
            if str_eq_chars(headers[i], expected_header) {
                if count == expected_order {
                    return Ok(i);
                }
                count += 1;
            }
            i += 1;
        }
        let mut msg = String::new();
        msg.append("Could not find `");
        let name_s = chars_to_string(expected_header);
        msg.append(name_s.as_str());
        msg.append("` in header row");
        Err(CsvCliError::InvalidConfiguration(msg))
    }

    /// Resolves one column selection: numeric selections must lie within
    /// the header row; named selections need a header row.
    pub fn get_field_index(&self, colname: &str, headers: &Vec<&str>) -> (r: CsvCliResult<usize>)
        ensures
            match r {
                Ok(i) => spec_field_index(self.has_header, colname@, slice_views(headers@))
                    == Some(i as int),
                Err(CsvCliError::InvalidConfiguration(_)) => spec_field_index(
                    self.has_header,
                    colname@,
                    slice_views(headers@),
                ) is None,
                Err(_) => false,
            },
    {
        match self.get_numeric_index(colname) {
            Some(num) => {
                if num < headers.len() {
                    Ok(num)
                } else {
                    let mut msg = String::new();
                    msg.append(
                        "Could not properly configure. Column selection needs to be in range",
                    );
                    Err(CsvCliError::InvalidConfiguration(msg))
                }
            },
            None => {
                if !self.has_header {
                    let mut msg = String::new();
                    msg.append("Columns must be numeric if you don't have a header");
                    Err(CsvCliError::InvalidConfiguration(msg))
                } else {
                    self.get_string_index(colname, headers)
                }
            },
        }
    }

    /// Resolves the user's column selections into indices; every piece of
    /// every selection must resolve.
    pub fn get_field_indexes(&self, user_defs: &Vec<&str>, headers: &Vec<&str>) -> (r: CsvCliResult<
        Vec<usize>,
    >)
        ensures
            match r {
                Ok(v) => spec_field_indexes(
                    self.has_header,
                    slice_views(user_defs@),
                    slice_views(headers@),
                ) == Some(v@.map_values(|u: usize| u as int)),
                Err(CsvCliError::InvalidConfiguration(_)) => spec_field_indexes(
                    self.has_header,
                    slice_views(user_defs@),
                    slice_views(headers@),
                ) is None,
                Err(_) => false,
            },
    {
        let ghost dv = slice_views(user_defs@);
        let ghost hv = slice_views(headers@);
        let mut output_vec: Vec<usize> = Vec::new();
        let mut d: usize = 0;
        while d < user_defs.len()
            invariant
                dv == slice_views(user_defs@),
                hv == slice_views(headers@),
                0 <= d <= user_defs@.len(),
                spec_field_indexes(self.has_header, dv.take(d as int), hv) == Some(
                    output_vec@.map_values(|u: usize| u as int),
                ),
            decreases user_defs@.len() - d,
        {
            let all_cols = self.split_arg_string(user_defs[d]);
            let ghost cols = str_views(all_cols@);
            let ghost pre_out = output_vec@;
            let mut c: usize = 0;
            while c < all_cols.len()
                invariant
                    dv == slice_views(user_defs@),
                    hv == slice_views(headers@),
                    cols == str_views(all_cols@),
                    0 <= d < user_defs@.len(),
                    cols == split_arg_spec(dv[d as int]),
                    0 <= c <= all_cols@.len(),
                    spec_indexes_of(self.has_header, cols.take(c as int), hv) == Some(
                        output_vec@.skip(pre_out.len() as int).map_values(|u: usize| u as int),
                    ),
                    output_vec@.take(pre_out.len() as int) == pre_out,
                    output_vec@.len() >= pre_out.len(),
                decreases all_cols@.len() - c,
            {
                let idx = match self.get_field_index(all_cols[c].as_str(), headers) {
                    Ok(x) => x,
                    Err(e) => {
                        proof {
                            assert(all_cols@[c as int]@ == cols[c as int]);
                            lemma_indexes_of_none(self.has_header, cols, hv, c as int);
                            assert(dv.len() == user_defs@.len());
                            assert(dv[d as int] == user_defs@[d as int]@);
                            assert(cols == split_arg_spec(dv[d as int]));
                            lemma_field_indexes_none(self.has_header, dv, hv, d as int);
                        }
                        return Err(e);
                    },
                };
                let ghost prev = output_vec@;
                output_vec.push(idx);
                proof {
                    assert(cols.take(c + 1).drop_last() =~= cols.take(c as int));
                    assert(cols.take(c + 1).last() == cols[c as int]);
                    assert(output_vec@.skip(pre_out.len() as int) =~= prev.skip(
                        pre_out.len() as int,
                    ).push(idx));
                    assert(output_vec@.skip(pre_out.len() as int).map_values(
                        |u: usize| u as int,
                    ) =~= prev.skip(pre_out.len() as int).map_values(|u: usize| u as int).push(
                        idx as int,
                    ));
                    assert(output_vec@.take(pre_out.len() as int) =~= pre_out);
                }
                c += 1;
            }
            proof {
                assert(cols.take(all_cols@.len() as int) =~= cols);
                assert(dv.take(d + 1).drop_last() =~= dv.take(d as int));
                assert(dv.take(d + 1).last() == dv[d as int]);
                assert(output_vec@.map_values(|u: usize| u as int) =~= pre_out.map_values(
                    |u: usize| u as int,
                ) + output_vec@.skip(pre_out.len() as int).map_values(|u: usize| u as int)) by {
                    assert(output_vec@ =~= pre_out + output_vec@.skip(pre_out.len() as int));
                }
            }
            d += 1;
        }
        proof {
            assert(dv.take(user_defs@.len() as int) =~= dv);
        }
        Ok(output_vec)
    }
}

/// Once one column of a run fails to resolve, the whole run fails.
proof fn lemma_indexes_of_none(
    has_header: bool,
    cols: Seq<Seq<char>>,
    headers: Seq<Seq<char>>,
    c: int,
)
    requires
        0 <= c < cols.len(),
        spec_field_index(has_header, cols[c], headers) is None,
    ensures
        spec_indexes_of(has_header, cols, headers) is None,
    decreases cols.len(),
{
    if cols.len() > 0 {
        if c == cols.len() - 1 {
            assert(cols.last() == cols[c]);
        } else {
            lemma_indexes_of_none(has_header, cols.drop_last(), headers, c);
        }
    }
}

/// Once one selection of the run fails to resolve, the whole run fails.
proof fn lemma_field_indexes_none(
    has_header: bool,
    defs: Seq<Seq<char>>,
    headers: Seq<Seq<char>>,
    d: int,
)
    requires
        0 <= d < defs.len(),
        spec_indexes_of(has_header, split_arg_spec(defs[d]), headers) is None,
    ensures
        spec_field_indexes(has_header, defs, headers) is None,
    decreases defs.len(),
{
    if defs.len() > 0 {
        if d == defs.len() - 1 {
            assert(defs.last() == defs[d]);
        } else {
            lemma_field_indexes_none(has_header, defs.drop_last(), headers, d);
        }
    }
}

} // verus!
