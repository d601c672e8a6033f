# chan_distill

Labels one-minute candlesticks with the structures of Chan theory in eight
timeframes, plans the pyramid of convolutions that learns from them, and turns
a model's outputs into trading signals.

The library under `src/` is verified with Verus. Its functions state in
`requires` and `ensures` what they need and what they give; `law_*` functions
state what holds between them.

| Module | What it holds |
|--------|---------------|
| `number`, `single` | double-precision numbers as bit patterns, their order, single precision, and rounded sums |
| `text`, `time`, `table` | texts, points in time, tables of comma-separated values |
| `label::csv_reader` | bars from a table |
| `label::freq` | the names of bar lengths |
| `label::czsc` | the CZSC analyzer of `czsc_core`, as contracts |
| `label::czsc_label`, `label::replay` | timeframes, and the labels of every bar |
| `label::bsp` | central zones, and points at which to buy or sell |
| `label::outlook` | the return over the bars to come, and its class |
| `label::parquet_out` | the 44 columns that labelled bars are written as |
| `model::multi_tf` | levels, heads and losses of the pyramid |
| `train` | windows, batches, targets, and when training stops |
| `infer` | records, signals, and which are shown |

`app/` is the program around it: the command line, files, floating-point
arithmetic, and the tensors of Candle and ONNX Runtime.

    label  -d bars.csv -o labels.parquet --no-header --seq-len 60
    train  -d "labels/*.parquet" --seq-len 60 --epochs 50
    export -m checkpoints/best.safetensors -o models/best.safetensors
    infer  -m checkpoints/best.safetensors -d bars.csv --seq-len 60
