//! Text form of a snapshot.
use vstd::prelude::*;
use vstd::string::StringExecFns;

verus! {

/// The texts of one grid row, separated by `,`.
pub open spec fn join_fields(fields: Seq<Seq<char>>) -> Seq<char>
    decreases fields.len(),
{
    if fields.len() == 0 {
        Seq::empty()
    } else if fields.len() == 1 {
        fields[0]
    } else {
        join_fields(fields.drop_last()) + seq![','] + fields.last()
    }
}

/// The rows of a grid of texts, each joined by `join_fields` and ended by a
/// newline.
pub open spec fn concat_spec(rows: Seq<Seq<Seq<char>>>) -> Seq<char>
    decreases rows.len(),
{
    if rows.len() == 0 {
        Seq::empty()
    } else {
        concat_spec(rows.drop_last()) + join_fields(rows.last()) + seq!['\n']
    }
}

/// The characters of a grid of strings.
pub open spec fn text_view(data: Seq<Vec<String>>) -> Seq<Seq<Seq<char>>> {
    data.map_values(|row: Vec<String>| row@.map_values(|s: String| s@))
}

/// Relies on `format!("{:?}", ..)`: the `Debug` text of a value.
#[verifier::external_body]
pub(crate) fn debug_text<T: core::fmt::Debug>(t: &T) -> String {
    format!("{:?}", t)
}

/// Joins a grid of texts: the texts of each row separated by `,`, each row
/// followed by a newline.
pub fn concat(data: Vec<Vec<String>>) -> (out: String)
    ensures
        out@ == concat_spec(text_view(data@)),
{
    let ghost rows = text_view(data@);
    let mut out = String::new();
    let mut i: usize = 0;
    while i < data.len()
        invariant
            i <= data.len(),
            rows == text_view(data@),
            out@ == concat_spec(rows.take(i as int)),
        decreases data.len() - i,
    {
        let line = &data[i];
        let ghost fields = rows[i as int];
        let ghost before = out@;
        let mut j: usize = 0;
        while j < line.len()
            invariant
                j <= line.len(),
                line == data[i as int],
                i < data.len(),
                rows == text_view(data@),
                fields == rows[i as int],
                fields == line@.map_values(|s: String| s@),
                out@ == before + join_fields(fields.take(j as int)),
            decreases line.len() - j,
        {
            proof {
                reveal_strlit(",");
                assert(fields.take(j + 1).drop_last() == fields.take(j as int));
            }
            if j > 0 {
                out.append(",");
            }
            out.append(line[j].as_str());
            j += 1;
        }
        proof {
            reveal_strlit("\n");
            assert(fields.take(line.len() as int) == fields);
            assert(rows.take(i + 1).drop_last() == rows.take(i as int));
        }
        out.append("\n");
        i += 1;
    }
    proof {
        assert(rows.take(data.len() as int) == rows);
    }
    out
}

} // verus!
