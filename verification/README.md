# client_att_table

The attribute values that a Bluetooth LE host keeps per client, such as the client characteristic
configuration descriptors that hold subscriptions, with proofs in Verus.

- `layout`: the serialized form of a table and what it means; `entry` and `bytes` are its parts.
- `view`: read-only access to a table in any byte buffer, validated on the way in.
- `builder` and `table`: a table in fixed-size storage.
- `identity` and `clients`: a slot with a table for each connection, and which link has which slot.
- `table_laws` and `client_laws`: what holds of tables and slots whatever is done with them.

`app/` puts the tables behind a mutex and converts the types of the controller interface.

`config::CLIENT_ATT_TABLE_SIZE` sets how much storage a table has: any size from 4 to 65535 bytes.
