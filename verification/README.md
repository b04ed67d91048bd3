# ljos_consensus

DeGroot / Friedkin–Johnsen consensus over a trust graph, with Seldon as an outside ODE
engine. The crate is in two parts.

`src/` is the verified library (Verus). It holds what the seat decides on plain values,
everything but the floating-point arithmetic and the I/O:

- `roster`: ballots, the sorted roster of voters and options, where each ballot stands
  on it, and how many ballots each option got;
- `json`: JSON text read by serde_json into a document of plain values (numbers kept as
  their numerals), and the vote, trust, anchor and prediction shapes read from it, each
  error reported as the first bad row gives it, and the issue ids of a tracker's issue
  list;
- `popular`: which voters count as predictors, when the surprisingly popular rule owes an
  answer, and which issues take part in the reliability estimate;
- `seldon`: the opinions file written for Seldon, the numbered opinion files it writes
  back (which is the latest, which came before), and reading their rows;
- `decimal`, `text`: numerals as `usize::from_str` reads them, and the string order,
  trimming and splitting the above rest on;
- `cli`: the choices the command line makes before it reads or runs anything.

Each function states its result exactly; the laws (`law_*`) state what holds across
calls, such as that the opinions file reads back as the opinions written.

The one call into serde_json is a trusted wrapper whose result is named
(`json_document`); every reader states its result over that name.

`app/` is the program: the command line, file and process I/O, and the floating-point
engines (influence, the settles, Dawid–Skene, the surprisingly popular answer,
EigenTrust), which take their rosters and placements from the library. The program reads
each numeral the library hands back as a floating-point number, and flags which anchor
values lie in `[0, 1]`.
