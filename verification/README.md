# rusty-shark

Offline packet dissection with a verified core. The library reads classic pcap
and pcapng captures, dissects each packet into summary columns and a tree of
typed, named fields, evaluates display filters over that tree, tracks RoCE
queue pairs, and renders the results. What its functions return is stated in
contracts that Verus proves, but for three declarations named below.

## Library (`src/`)

| Module | Holds |
|--------|-------|
| `pcap`, `pcapng` | capture decoders over an input that may arrive in pieces |
| `dissect`, `roce`, `nvme` | dissectors: link, network and transport layers, InfiniBand and RoCE, NVMe capsules |
| `field` | the detail tree: verbose output, extraction, presence |
| `dfilter` | display filters: lexer, parser, evaluation |
| `analysis`, `congestion` | per-queue-pair reports on sequence numbers and on congestion |
| `print`, `cli`, `pipeline` | rendering, options, batches, parallel dissection |
| `addr`, `bytes`, `text` | addresses, integers and text |
| `roundtrip`, `grammar`, `ordering`, `transport` | laws that relate several functions |

A contract says which value a function returns, over the views of its
arguments: `dissect` returns the dissection that `dissected` describes,
`Filter::compile` the expression or the message that `compiled` describes, and
so on. Laws are public proof functions whose names start with `law_`.

Three declarations are believed rather than proved: what `String::push` does,
that quoting a string depends on the string alone (`dfilter::quote`), and that
rayon maps a vector in order (`pipeline::par_map`).

## Program (`app/`)

`rshark` parses the command line, opens the file, feeds its bytes to the
library and writes what comes back.

    rshark -r capture.pcap
    rshark -r capture.pcap -c 100           # first 100 packets
    rshark -r capture.pcap -V               # whole detail tree
    rshark -r capture.pcap -e ip.src -e infiniband.bth.psn
    rshark -r capture.pcap -Y 'infiniband.bth.destqp == 0x123'
    rshark -r capture.pcap -q -z roce,psn   # queue pairs: drops, retransmits
    rshark -r capture.pcap -q -z roce,cong  # queue pairs: ECN marks, CNPs
